use crate::common::NetRange;
use crate::interval_tree::{is_longest_match, visits_within};
use crate::network::{Ipv4Net, Ipv6Net};
use crate::{lemma_match_unique, AsnMap, Ipv4AsnMap, Ipv6AsnMap};
use vstd::prelude::*;

verus! {

/// A network of either address family.
#[derive(Clone, Copy, Debug, PartialEq, Eq, Structural)]
pub enum IpNet {
    V4(Ipv4Net),
    V6(Ipv6Net),
}

/// An address of either family, as its integer value.
#[derive(Clone, Copy, Debug, PartialEq, Eq, Structural)]
pub enum IpAddress {
    V4(u32),
    V6(u128),
}

/// One network announced by one autonomous system.
#[derive(Clone, Copy, Debug, PartialEq, Eq, Structural)]
pub struct Announcement {
    pub net: IpNet,
    pub asn: u32,
}

/// Why a table could not be built.
#[derive(Clone, Copy, Debug, PartialEq, Eq, Structural)]
pub enum BuildError {
    /// The announcement at this position repeats the network of an earlier one.
    Duplicate(usize),
}

/// The pair of indices, one per address family, that lookups are answered from.
pub struct AttributionTable {
    pub v4: Ipv4AsnMap,
    pub v6: Ipv6AsnMap,
}

/// Builds attribution tables from the announcements of a feed.
pub struct BgpTools {}

impl IpNet {
    pub open spec fn wf(self) -> bool {
        match self {
            IpNet::V4(n) => n.wf(),
            IpNet::V6(n) => n.wf(),
        }
    }
}

impl Announcement {
    /// The stored form of this announcement.
    pub open spec fn range(self) -> NetRange {
        match self.net {
            IpNet::V4(n) => n.range(self.asn),
            IpNet::V6(n) => n.range(self.asn),
        }
    }

    /// Both announce the same network of the same family.
    pub open spec fn clashes(self, other: Announcement) -> bool {
        &&& (self.net is V4 <==> other.net is V4)
        &&& self.range().same_key(other.range())
    }
}

/// The stored forms of the IPv4 announcements among the first `n` of `s`.
pub open spec fn v4_ranges(s: Seq<Announcement>, n: int) -> Set<NetRange> {
    Set::new(|r: NetRange| exists|k: int| 0 <= k < n && s[k].net is V4 && s[k].range() == r)
}

/// The stored forms of the IPv6 announcements among the first `n` of `s`.
pub open spec fn v6_ranges(s: Seq<Announcement>, n: int) -> Set<NetRange> {
    Set::new(|r: NetRange| exists|k: int| 0 <= k < n && s[k].net is V6 && s[k].range() == r)
}

/// The announcement at position `i` repeats the network of an earlier one.
pub open spec fn repeats_earlier(s: Seq<Announcement>, i: int) -> bool {
    exists|j: int| 0 <= j < i && s[j].clashes(s[i])
}

impl AttributionTable {
    pub open spec fn wf(self) -> bool {
        self.v4.wf() && self.v6.wf()
    }

    /// `found` is the longest-prefix announcement of this table covering
    /// `address`, or `None` when no announcement covers it.
    pub open spec fn answers(self, address: IpAddress, found: Option<NetRange>) -> bool {
        match address {
            IpAddress::V4(a) => is_longest_match(self.v4.networks(), a as u128, found),
            IpAddress::V6(a) => is_longest_match(self.v6.networks(), a, found),
        }
    }

    /// The longest-prefix announcement covering `address`, with the number
    /// of tree nodes visited.
    pub fn lookup(&self, address: IpAddress) -> (r: (u8, Option<NetRange>))
        requires
            self.wf(),
        ensures
            self.answers(address, r.1),
            visits_within(
                match address {
                    IpAddress::V4(_) => self.v4.networks().len(),
                    IpAddress::V6(_) => self.v6.networks().len(),
                },
                r.0,
            ),
    {
        match address {
            IpAddress::V4(a) => self.v4.lookup(&a),
            IpAddress::V6(a) => self.v6.lookup(&a),
        }
    }

    /// Puts a freshly loaded table in place of this one. A load that failed
    /// leaves this table as it was and hands its error back.
    pub fn reload<E>(&mut self, loaded: Result<AttributionTable, E>) -> (r: Option<E>)
        ensures
            match loaded {
                Ok(t) => *final(self) == t && r is None,
                Err(e) => *final(self) == *old(self) && r == Some(e),
            },
    {
        match loaded {
            Ok(t) => {
                *self = t;
                None
            },
            Err(e) => Some(e),
        }
    }
}

impl BgpTools {
    /// Whether an announcement seen `new_hits` times replaces one seen
    /// `stored_hits` times for the same network: the later one wins unless the
    /// stored one was seen more often.
    pub fn supersedes(stored_hits: u64, new_hits: u64) -> (r: bool)
        ensures
            r == (new_hits >= stored_hits),
    {
        !(stored_hits > new_hits)
    }

    /// Builds both indices from announcements that name each network once.
    /// A network named twice is an error in the feed, and fails the build.
    pub fn build(announcements: &Vec<Announcement>) -> (r: Result<AttributionTable, BuildError>)
        requires
            forall|i: int| 0 <= i < announcements.len() ==> (#[trigger] announcements[i]).net.wf(),
        ensures
            match r {
                Ok(t) => {
                    &&& t.wf()
                    &&& t.v4.networks() == v4_ranges(announcements@, announcements.len() as int)
                    &&& t.v6.networks() == v6_ranges(announcements@, announcements.len() as int)
                    &&& forall|i: int| 0 <= i < announcements.len() ==> !repeats_earlier(announcements@, i)
                },
                Err(BuildError::Duplicate(i)) => {
                    &&& i < announcements.len()
                    &&& repeats_earlier(announcements@, i as int)
                    &&& forall|k: int| 0 <= k < i ==> !repeats_earlier(announcements@, k)
                },
            },
    {
        let ghost s = announcements@;
        let mut v4 = Ipv4AsnMap::new();
        let mut v6 = Ipv6AsnMap::new();
        let mut i: usize = 0;
        assert(v4_ranges(s, 0) =~= Set::empty());
        assert(v6_ranges(s, 0) =~= Set::empty());
        while i < announcements.len()
            invariant
                0 <= i <= announcements.len(),
                s == announcements@,
                forall|k: int| 0 <= k < announcements.len() ==> (#[trigger] announcements[k]).net.wf(),
                v4.wf(),
                v6.wf(),
                v4.networks() == v4_ranges(s, i as int),
                v6.networks() == v6_ranges(s, i as int),
                v4.networks().len() <= i,
                v6.networks().len() <= i,
                forall|k: int| 0 <= k < i ==> !repeats_earlier(s, k),
            decreases announcements.len() - i,
        {
            let a = announcements[i];
            match a.net {
                IpNet::V4(net) => {
                    if v4.contains(&net) {
                        proof {
                            let w = choose|q: NetRange| v4.networks().contains(q) && q.same_key(net.range(0));
                            assert(w.same_key(net.range(a.asn)));
                            let j = choose|j: int| 0 <= j < i && s[j].net is V4 && s[j].range() == w;
                            assert(s[j].clashes(s[i as int]));
                        }
                        return Err(BuildError::Duplicate(i));
                    }
                    v4.insert(net, a.asn);
                },
                IpNet::V6(net) => {
                    if v6.contains(&net) {
                        proof {
                            let w = choose|q: NetRange| v6.networks().contains(q) && q.same_key(net.range(0));
                            assert(w.same_key(net.range(a.asn)));
                            let j = choose|j: int| 0 <= j < i && s[j].net is V6 && s[j].range() == w;
                            assert(s[j].clashes(s[i as int]));
                        }
                        return Err(BuildError::Duplicate(i));
                    }
                    v6.insert(net, a.asn);
                },
            }
            proof {
                assert(v4.networks() =~= v4_ranges(s, i + 1));
                assert(v6.networks() =~= v6_ranges(s, i + 1));
                assert(!repeats_earlier(s, i as int)) by {
                    if repeats_earlier(s, i as int) {
                        let j = choose|j: int| 0 <= j < i && s[j].clashes(s[i as int]);
                        if s[j].net is V4 {
                            assert(v4_ranges(s, i as int).contains(s[j].range()));
                        } else {
                            assert(v6_ranges(s, i as int).contains(s[j].range()));
                        }
                    }
                }
            }
            i = i + 1;
        }
        Ok(AttributionTable { v4, v6 })
    }
}

/// Order independence: two tables built from the same announcements, in
/// whatever order they came, attribute every address alike.
pub proof fn lemma_order_independent(
    s1: Seq<Announcement>,
    s2: Seq<Announcement>,
    t1: AttributionTable,
    t2: AttributionTable,
    address: IpAddress,
    found1: Option<NetRange>,
    found2: Option<NetRange>,
)
    requires
        s1.to_set() == s2.to_set(),
        t1.wf(),
        t2.wf(),
        t1.v4.networks() == v4_ranges(s1, s1.len() as int),
        t1.v6.networks() == v6_ranges(s1, s1.len() as int),
        t2.v4.networks() == v4_ranges(s2, s2.len() as int),
        t2.v6.networks() == v6_ranges(s2, s2.len() as int),
        t1.answers(address, found1),
        t2.answers(address, found2),
    ensures
        found1 == found2,
{
    assert(t1.v4.networks() =~= t2.v4.networks()) by {
        assert forall|r: NetRange| t1.v4.networks().contains(r) implies t2.v4.networks().contains(r) by {
            let k = choose|k: int| 0 <= k < s1.len() && s1[k].net is V4 && s1[k].range() == r;
            assert(s1.to_set().contains(s1[k]));
            let j = choose|j: int| 0 <= j < s2.len() && s2[j] == s1[k];
        }
        assert forall|r: NetRange| t2.v4.networks().contains(r) implies t1.v4.networks().contains(r) by {
            let k = choose|k: int| 0 <= k < s2.len() && s2[k].net is V4 && s2[k].range() == r;
            assert(s2.to_set().contains(s2[k]));
            let j = choose|j: int| 0 <= j < s1.len() && s1[j] == s2[k];
        }
    }
    assert(t1.v6.networks() =~= t2.v6.networks()) by {
        assert forall|r: NetRange| t1.v6.networks().contains(r) implies t2.v6.networks().contains(r) by {
            let k = choose|k: int| 0 <= k < s1.len() && s1[k].net is V6 && s1[k].range() == r;
            assert(s1.to_set().contains(s1[k]));
            let j = choose|j: int| 0 <= j < s2.len() && s2[j] == s1[k];
        }
        assert forall|r: NetRange| t2.v6.networks().contains(r) implies t1.v6.networks().contains(r) by {
            let k = choose|k: int| 0 <= k < s2.len() && s2[k].net is V6 && s2[k].range() == r;
            assert(s2.to_set().contains(s2[k]));
            let j = choose|j: int| 0 <= j < s1.len() && s1[j] == s2[k];
        }
    }
    t1.v4.lemma_distinct_blocks();
    t1.v6.lemma_distinct_blocks();
    match address {
        IpAddress::V4(a) => lemma_match_unique(t1.v4.networks(), 32, a as u128, found1, found2),
        IpAddress::V6(a) => lemma_match_unique(t1.v6.networks(), 128, a, found1, found2),
    }
}

} // verus!
