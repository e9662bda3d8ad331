use crate::common::NetRange;
use vstd::arithmetic::power2::{lemma_pow2_strictly_increases, lemma_pow2_unfold, pow2};
use vstd::prelude::*;
use vstd::set_lib::lemma_set_disjoint_lens;

verus! {

/// One node of an AVL tree of networks, ordered by `(min, max)` and augmented
/// with the largest last address found in its subtree.
#[derive(Debug)]
pub struct Node {
    pub data: NetRange,
    pub left: Option<Box<Node>>,
    pub right: Option<Box<Node>>,
    pub height: u8,
    pub max_high: u128,
}

/// Height of an optional subtree as its root records it; an empty one is -1.
pub open spec fn ht(t: Option<Box<Node>>) -> int {
    match t {
        None => -1,
        Some(n) => n.height as int,
    }
}

/// The networks stored in an optional subtree.
pub open spec fn tree_ranges(t: Option<Box<Node>>) -> Set<NetRange>
    decreases t,
{
    match t {
        None => Set::empty(),
        Some(n) => n.ranges(),
    }
}

/// An optional subtree is empty or well formed.
pub open spec fn tree_wf(t: Option<Box<Node>>) -> bool
    decreases t,
{
    match t {
        None => true,
        Some(n) => n.wf(),
    }
}

/// The larger of a last address and the cached bound of an optional subtree.
pub open spec fn high_with(m: u128, t: Option<Box<Node>>) -> u128 {
    match t {
        None => m,
        Some(n) => if n.max_high > m { n.max_high } else { m },
    }
}

/// Among networks that share their first address, a wider one never has the
/// longer prefix.
pub open spec fn nested(s: Set<NetRange>) -> bool {
    forall|a: NetRange, b: NetRange|
        #![trigger s.contains(a), s.contains(b)]
        s.contains(a) && s.contains(b) && a.min == b.min && a.max < b.max ==> b.len <= a.len
}

/// A lookup in an index of `n` networks visited `count` nodes: none when the
/// index is empty, else the root and at most every node once.
pub open spec fn visits_within(n: nat, count: u8) -> bool {
    if n == 0 {
        count == 0
    } else {
        1 <= count && count <= n
    }
}

/// `best` is a longest-prefix network of `s` that contains `key`, or `None`
/// when no network of `s` contains `key`.
pub open spec fn is_longest_match(s: Set<NetRange>, key: u128, best: Option<NetRange>) -> bool {
    match best {
        None => forall|r: NetRange| s.contains(r) ==> !r.contains(key),
        Some(b) => s.contains(b) && b.contains(key) && forall|r: NetRange|
            s.contains(r) && r.contains(key) ==> r.len <= b.len,
    }
}

impl Node {
    /// The networks stored in this subtree.
    pub open spec fn ranges(self) -> Set<NetRange>
        decreases self,
    {
        tree_ranges(self.left).union(tree_ranges(self.right)).insert(self.data)
    }

    /// The cached fields of this node agree with its children, and the
    /// children sort on either side of its network.
    pub open spec fn local_ok(self) -> bool {
        &&& self.data.min <= self.data.max
        &&& self.height as int == 1 + if ht(self.left) > ht(self.right) {
            ht(self.left)
        } else {
            ht(self.right)
        }
        &&& self.max_high == high_with(high_with(self.data.max, self.left), self.right)
        &&& forall|r: NetRange| tree_ranges(self.left).contains(r) ==> r.key_lt(self.data)
        &&& forall|r: NetRange| tree_ranges(self.right).contains(r) ==> self.data.key_lt(r)
    }

    /// The two subtrees differ in height by at most one.
    pub open spec fn balanced(self) -> bool {
        -1 <= ht(self.left) - ht(self.right) <= 1
    }

    /// Every node of this subtree is consistent, ordered and balanced.
    pub open spec fn wf(self) -> bool
        decreases self,
    {
        &&& self.local_ok()
        &&& self.balanced()
        &&& tree_wf(self.left)
        &&& tree_wf(self.right)
    }

    /// As `wf`, except that the root itself may be out of balance.
    pub open spec fn wf_unbalanced(self) -> bool {
        &&& self.local_ok()
        &&& tree_wf(self.left)
        &&& tree_wf(self.right)
    }

    /// A new leaf holding `data`.
    pub fn new(data: NetRange) -> (r: Node)
        requires
            data.min <= data.max,
        ensures
            r.wf(),
            r.data == data,
            r.left is None,
            r.right is None,
            r.height == 0,
            r.ranges() == set![data],
    {
        let r = Node { data, left: None, right: None, height: 0, max_high: data.max };
        assert(r.ranges() =~= set![data]);
        r
    }

    fn update_height(&mut self)
        requires
            1 + ht(old(self).left) <= 255,
            1 + ht(old(self).right) <= 255,
        ensures
            final(self).height as int == 1 + if ht(old(self).left) > ht(old(self).right) {
                ht(old(self).left)
            } else {
                ht(old(self).right)
            },
            final(self).data == old(self).data,
            final(self).left == old(self).left,
            final(self).right == old(self).right,
            final(self).max_high == old(self).max_high,
    {
        let left_height = height(&self.left);
        let right_height = height(&self.right);
        let m = if left_height > right_height { left_height } else { right_height };
        self.height = (m + 1) as u8;
    }

    fn update_max_high(&mut self)
        ensures
            final(self).max_high == high_with(high_with(old(self).data.max, old(self).left), old(self).right),
            final(self).data == old(self).data,
            final(self).left == old(self).left,
            final(self).right == old(self).right,
            final(self).height == old(self).height,
    {
        let mut max_high = self.data.max;
        if let Some(left) = &self.left {
            if left.max_high > max_high {
                max_high = left.max_high;
            }
        }
        if let Some(right) = &self.right {
            if right.max_high > max_high {
                max_high = right.max_high;
            }
        }
        self.max_high = max_high;
    }
}

impl Node {
    /// Turns `(a, x, (b, y, c))` into `((a, x, b), y, c)`.
    fn rotate_left(&mut self)
        requires
            old(self).local_ok(),
            tree_wf(old(self).left),
            old(self).right is Some,
            old(self).right.unwrap().wf_unbalanced(),
            -1 <= ht(old(self).left) - ht(old(self).right.unwrap().left) <= 1,
            2 + ht(old(self).left) <= 255,
            2 + ht(old(self).right.unwrap().left) <= 255,
            1 + ht(old(self).right.unwrap().right) <= 255,
        ensures
            final(self).wf_unbalanced(),
            final(self).ranges() == old(self).ranges(),
            final(self).data == old(self).right.unwrap().data,
            final(self).right == old(self).right.unwrap().right,
            final(self).left is Some,
            final(self).left.unwrap().wf(),
            final(self).left.unwrap().data == old(self).data,
            final(self).left.unwrap().left == old(self).left,
            final(self).left.unwrap().right == old(self).right.unwrap().left,
            ht(final(self).left) == 1 + if ht(old(self).left) > ht(old(self).right.unwrap().left) {
                ht(old(self).left)
            } else {
                ht(old(self).right.unwrap().left)
            },
    {
        let ghost o = *self;
        let ghost r0 = *self.right.unwrap();
        proof {
            assert(r0.ranges() == tree_ranges(o.right));
            assert(r0.wf_unbalanced());
        }
        let mut right = self.right.take().unwrap();
        self.right = right.right.take();
        right.right = right.left.take();
        right.left = self.left.take();
        std::mem::swap(&mut self.data, &mut right.data);
        right.update_height();
        right.update_max_high();
        proof {
            let n = *right;
            assert forall|q: NetRange| tree_ranges(n.right).contains(q) implies n.data.key_lt(q) by {
                assert(r0.ranges().contains(q));
            }
            assert(n.wf());
            assert(n.ranges() =~= tree_ranges(o.left).union(tree_ranges(r0.left)).insert(o.data));
        }
        self.left = Some(right);
        self.update_height();
        self.update_max_high();
        proof {
            let f = *self;
            let n = *f.left.unwrap();
            assert(tree_ranges(f.left) == n.ranges());
            assert forall|q: NetRange| tree_ranges(f.left).contains(q) implies q.key_lt(f.data) by {
                assert(f.data == r0.data);
                assert(r0.ranges().contains(f.data));
                assert(tree_ranges(o.right).contains(r0.data));
                assert(o.data.key_lt(r0.data));
                assert(n.ranges() == tree_ranges(o.left).union(tree_ranges(r0.left)).insert(o.data));
                if tree_ranges(o.left).contains(q) {
                    assert(q.key_lt(o.data));
                } else if tree_ranges(r0.left).contains(q) {
                    assert(q.key_lt(r0.data));
                }
            }
            assert(f.ranges() =~= o.ranges());
        }
    }

    /// Turns `((a, x, b), y, c)` into `(a, x, (b, y, c))`.
    fn rotate_right(&mut self)
        requires
            old(self).local_ok(),
            tree_wf(old(self).right),
            old(self).left is Some,
            old(self).left.unwrap().wf_unbalanced(),
            -1 <= ht(old(self).left.unwrap().right) - ht(old(self).right) <= 1,
            2 + ht(old(self).right) <= 255,
            2 + ht(old(self).left.unwrap().right) <= 255,
            1 + ht(old(self).left.unwrap().left) <= 255,
        ensures
            final(self).wf_unbalanced(),
            final(self).ranges() == old(self).ranges(),
            final(self).data == old(self).left.unwrap().data,
            final(self).left == old(self).left.unwrap().left,
            final(self).right is Some,
            final(self).right.unwrap().wf(),
            final(self).right.unwrap().data == old(self).data,
            final(self).right.unwrap().left == old(self).left.unwrap().right,
            final(self).right.unwrap().right == old(self).right,
            ht(final(self).right) == 1 + if ht(old(self).left.unwrap().right) > ht(old(self).right) {
                ht(old(self).left.unwrap().right)
            } else {
                ht(old(self).right)
            },
    {
        let ghost o = *self;
        let ghost l0 = *self.left.unwrap();
        proof {
            assert(l0.ranges() == tree_ranges(o.left));
            assert(l0.wf_unbalanced());
        }
        let mut left = self.left.take().unwrap();
        self.left = left.left.take();
        left.left = left.right.take();
        left.right = self.right.take();
        std::mem::swap(&mut self.data, &mut left.data);
        left.update_height();
        left.update_max_high();
        proof {
            let n = *left;
            assert forall|q: NetRange| tree_ranges(n.left).contains(q) implies q.key_lt(n.data) by {
                assert(l0.ranges().contains(q));
            }
            assert(n.wf());
            assert(n.ranges() =~= tree_ranges(l0.right).union(tree_ranges(o.right)).insert(o.data));
        }
        self.right = Some(left);
        self.update_height();
        self.update_max_high();
        proof {
            let f = *self;
            let n = *f.right.unwrap();
            assert(tree_ranges(f.right) == n.ranges());
            assert forall|q: NetRange| tree_ranges(f.right).contains(q) implies f.data.key_lt(q) by {
                assert(f.data == l0.data);
                assert(l0.ranges().contains(f.data));
                assert(tree_ranges(o.left).contains(l0.data));
                assert(l0.data.key_lt(o.data));
                assert(n.ranges() == tree_ranges(l0.right).union(tree_ranges(o.right)).insert(o.data));
                if tree_ranges(o.right).contains(q) {
                    assert(o.data.key_lt(q));
                } else if tree_ranges(l0.right).contains(q) {
                    assert(l0.data.key_lt(q));
                }
            }
            assert(f.ranges() =~= o.ranges());
        }
    }
}

impl Node {
    /// Restores balance at a node whose left subtree is two levels taller
    /// than its right one.
    fn rotate_left_then_right(&mut self)
        requires
            old(self).wf_unbalanced(),
            ht(old(self).left) == ht(old(self).right) + 2,
            ht(old(self).left) <= 254,
        ensures
            final(self).wf(),
            final(self).ranges() == old(self).ranges(),
            ht(old(self).left) <= final(self).height <= ht(old(self).left) + 1,
    {
        let ghost l0 = *self.left.unwrap();
        assert(l0.wf());
        let mut left = self.left.take().unwrap();
        if height(&left.left) < height(&left.right) {
            assert(left.right.unwrap().wf());
            left.rotate_left();
            self.left = Some(left);
            self.update_height();
            self.update_max_high();
        } else {
            self.left = Some(left);
        }
        self.rotate_right();
    }

    /// Restores balance at a node whose right subtree is two levels taller
    /// than its left one.
    fn rotate_right_then_left(&mut self)
        requires
            old(self).wf_unbalanced(),
            ht(old(self).right) == ht(old(self).left) + 2,
            ht(old(self).right) <= 254,
        ensures
            final(self).wf(),
            final(self).ranges() == old(self).ranges(),
            ht(old(self).right) <= final(self).height <= ht(old(self).right) + 1,
    {
        let ghost r0 = *self.right.unwrap();
        assert(r0.wf());
        let mut right = self.right.take().unwrap();
        if height(&right.left) > height(&right.right) {
            assert(right.left.unwrap().wf());
            right.rotate_right();
            self.right = Some(right);
            self.update_height();
            self.update_max_high();
        } else {
            self.right = Some(right);
        }
        self.rotate_left();
    }

    /// Adds the leaf `node` to this subtree and rebalances on the way back up.
    pub fn insert(&mut self, node: Node)
        requires
            old(self).wf(),
            node.wf(),
            node.left is None,
            node.right is None,
            forall|r: NetRange| old(self).ranges().contains(r) ==> !r.same_key(node.data),
            old(self).ranges().len() < usize::MAX,
        ensures
            final(self).wf(),
            final(self).ranges() == old(self).ranges().insert(node.data),
            old(self).height <= final(self).height <= old(self).height + 1,
        decreases *old(self),
    {
        let ghost o = *self;
        let ghost d = node.data;
        assert(node.ranges() =~= set![d]);
        proof {
            lemma_height_fits(o);
            lemma_size(o);
        }
        if node.data.min < self.data.min || (node.data.min == self.data.min && node.data.max
            < self.data.max) {
            match self.left.take() {
                Some(mut child) => {
                    assert(child.wf());
                    assert forall|r: NetRange| child.ranges().contains(r) implies !r.same_key(d) by {
                        assert(o.ranges().contains(r));
                    }
                    child.insert(node);
                    self.left = Some(child);
                },
                None => {
                    self.left = Some(Box::new(node));
                },
            }
            assert(tree_ranges(self.left) == tree_ranges(o.left).insert(d));
        } else {
            assert(!o.data.same_key(d));
            match self.right.take() {
                Some(mut child) => {
                    assert(child.wf());
                    assert forall|r: NetRange| child.ranges().contains(r) implies !r.same_key(d) by {
                        assert(o.ranges().contains(r));
                    }
                    child.insert(node);
                    self.right = Some(child);
                },
                None => {
                    self.right = Some(Box::new(node));
                },
            }
            assert(tree_ranges(self.right) == tree_ranges(o.right).insert(d));
        }
        self.update_max_high();
        self.update_height();
        assert(self.ranges() =~= o.ranges().insert(d));
        let left_height = height(&self.left);
        let right_height = height(&self.right);
        let balance = left_height - right_height;
        if balance == 2 {
            self.rotate_left_then_right();
        } else if balance == -2 {
            self.rotate_right_then_left();
        }
    }
}

impl Node {
    /// Visits the nodes whose subtrees may hold a network containing `key`,
    /// keeping in `best` the longest prefix seen so far and counting visits.
    fn _lookup(&self, key: u128, best: &mut Option<NetRange>, complexity: &mut u8)
        requires
            self.wf(),
            nested(self.ranges()),
        ensures
            *final(complexity) >= *old(complexity),
            *old(complexity) < 255 ==> *final(complexity) > *old(complexity),
            *final(complexity) <= *old(complexity) + self.ranges().len(),
            match *final(best) {
                None => (*old(best)) is None && forall|r: NetRange|
                    self.ranges().contains(r) ==> !r.contains(key),
                Some(b) => {
                    &&& (*old(best) == Some(b) || (self.ranges().contains(b) && b.contains(key)))
                    &&& forall|r: NetRange| self.ranges().contains(r) && r.contains(key) ==> r.len <= b.len
                    &&& (*old(best)) is Some ==> (*old(best)).unwrap().len <= b.len
                },
            },
        decreases self,
    {
        let ghost s = self.ranges();
        proof {
            lemma_size(*self);
            let o = *self;
            if let Some(l) = o.left {
                assert(tree_ranges(o.left) == l.ranges());
            }
            if let Some(r) = o.right {
                assert(tree_ranges(o.right) == r.ranges());
            }
        }
        if *complexity < 255 {
            *complexity = *complexity + 1;
        }
        if let Some(left) = &self.left {
            proof {
                lemma_max_high(**left);
                assert(left.ranges().subset_of(s));
            }
            if key <= left.max_high {
                left._lookup(key, best, complexity);
            }
        }
        if let Some(right) = &self.right {
            proof {
                lemma_max_high(**right);
                assert(right.ranges().subset_of(s));
            }
            if key > self.data.min && key <= right.max_high {
                right._lookup(key, best, complexity);
            } else {
                assert forall|r: NetRange| right.ranges().contains(r) && r.contains(key) implies (
                self.data.contains(key) && r.len <= self.data.len) by {
                    assert(tree_ranges(self.right) == right.ranges());
                    assert(tree_ranges(self.right).contains(r));
                    assert(self.data.key_lt(r));
                    assert(s.contains(r));
                    assert(s.contains(self.data));
                    assert(r.max <= right.max_high);
                    assert(self.data.min == r.min);
                    assert(self.data.max < r.max);
                }
            }
        }
        if key >= self.data.min && key <= self.data.max {
            let better = match best {
                None => true,
                Some(b) => self.data.len > b.len,
            };
            if better {
                *best = Some(self.data);
            }
        }
        proof {
            assert(s == tree_ranges(self.left).union(tree_ranges(self.right)).insert(self.data));
        }
    }

    /// Finds the longest-prefix network of this subtree that contains `key`,
    /// together with the number of nodes visited (capped at 255).
    pub fn lookup(&self, key: u128) -> (r: (u8, Option<NetRange>))
        requires
            self.wf(),
            nested(self.ranges()),
        ensures
            is_longest_match(self.ranges(), key, r.1),
            1 <= r.0 <= self.ranges().len(),
    {
        let mut best: Option<NetRange> = None;
        let mut complexity: u8 = 0;
        self._lookup(key, &mut best, &mut complexity);
        (complexity, best)
    }
}

/// The cached bound of a well-formed subtree is the largest last address
/// among the networks it stores.
pub proof fn lemma_max_high(n: Node)
    requires
        n.wf(),
    ensures
        forall|r: NetRange| n.ranges().contains(r) ==> r.max <= n.max_high,
        exists|r: NetRange| n.ranges().contains(r) && r.max == n.max_high,
    decreases n,
{
    if let Some(l) = n.left {
        lemma_max_high(*l);
    }
    if let Some(r) = n.right {
        lemma_max_high(*r);
    }
    assert(n.ranges() == tree_ranges(n.left).union(tree_ranges(n.right)).insert(n.data));
    if n.max_high == n.data.max {
        assert(n.ranges().contains(n.data));
    } else if n.left is Some && n.max_high == n.left.unwrap().max_high {
        let w = choose|r: NetRange| n.left.unwrap().ranges().contains(r) && r.max == n.max_high;
        assert(n.ranges().contains(w));
    } else {
        let w = choose|r: NetRange| n.right.unwrap().ranges().contains(r) && r.max == n.max_high;
        assert(n.ranges().contains(w));
    }
}

impl Node {
    /// Whether this subtree stores a network spanning exactly `min..=max`.
    pub fn contains_key(&self, min: u128, max: u128) -> (r: bool)
        requires
            self.wf(),
        ensures
            r == exists|q: NetRange| self.ranges().contains(q) && q.min == min && q.max == max,
        decreases self,
    {
        proof {
            assert(self.ranges() == tree_ranges(self.left).union(tree_ranges(self.right)).insert(self.data));
        }
        let go_left = min < self.data.min || (min == self.data.min && max < self.data.max);
        let r = if min == self.data.min && max == self.data.max {
            true
        } else if go_left {
            match &self.left {
                Some(left) => left.contains_key(min, max),
                None => false,
            }
        } else {
            match &self.right {
                Some(right) => right.contains_key(min, max),
                None => false,
            }
        };
        proof {
            if r {
                if min == self.data.min && max == self.data.max {
                    assert(self.ranges().contains(self.data));
                } else if go_left {
                    let w = choose|q: NetRange| tree_ranges(self.left).contains(q) && q.min == min && q.max == max;
                    assert(self.ranges().contains(w));
                } else {
                    let w = choose|q: NetRange| tree_ranges(self.right).contains(q) && q.min == min && q.max == max;
                    assert(self.ranges().contains(w));
                }
            } else {
                assert forall|q: NetRange| self.ranges().contains(q) implies !(q.min == min && q.max == max) by {
                    if let Some(l) = self.left {
                        assert(tree_ranges(self.left) == l.ranges());
                    }
                    if let Some(rt) = self.right {
                        assert(tree_ranges(self.right) == rt.ranges());
                    }
                    if tree_ranges(self.left).contains(q) {
                        assert(q.key_lt(self.data));
                    } else if tree_ranges(self.right).contains(q) {
                        assert(self.data.key_lt(q));
                    }
                }
            }
        }
        r
    }
}

/// A well-formed subtree of height `h` stores finitely many networks, and at
/// least `2^((h + 1) / 2)` of them.
pub proof fn lemma_size(n: Node)
    requires
        n.wf(),
    ensures
        n.ranges().finite(),
        n.ranges().len() == tree_ranges(n.left).len() + tree_ranges(n.right).len() + 1,
        n.ranges().len() >= pow2(((n.height + 1) / 2) as nat),
    decreases n,
{
    let l = tree_ranges(n.left);
    let r = tree_ranges(n.right);
    if let Some(x) = n.left {
        lemma_size(*x);
    }
    if let Some(x) = n.right {
        lemma_size(*x);
    }
    assert(l.disjoint(r)) by {
        assert forall|q: NetRange| l.contains(q) implies !r.contains(q) by {
            assert(q.key_lt(n.data));
            if r.contains(q) {
                assert(n.data.key_lt(q));
            }
        }
    }
    lemma_set_disjoint_lens(l, r);
    assert(!l.union(r).contains(n.data)) by {
        if l.contains(n.data) {
            assert(n.data.key_lt(n.data));
        }
        if r.contains(n.data) {
            assert(n.data.key_lt(n.data));
        }
    }
    assert(n.ranges() == l.union(r).insert(n.data));
    let h = n.height as int;
    vstd::arithmetic::power2::lemma2_to64();
    if h == 0 {
        assert(pow2(0) == 1) by {
            vstd::arithmetic::power2::lemma2_to64();
        }
    } else if h == 1 {
        assert(pow2(1) == 2) by {
            vstd::arithmetic::power2::lemma2_to64();
        }
        if let Some(x) = n.left {
            if x.height == 0 {
                assert(l.len() >= 1);
            }
        }
        if let Some(x) = n.right {
            if x.height == 0 {
                assert(r.len() >= 1);
            }
        }
        assert(l.len() + r.len() >= 1);
    } else {
        let e = ((h - 1) / 2) as nat;
        assert(l.len() >= pow2(e) && r.len() >= pow2(e)) by {
            if (h / 2) as nat > e {
                lemma_pow2_strictly_increases(e, (h / 2) as nat);
            }
        }
        lemma_pow2_unfold(e + 1);
        assert(((h + 1) / 2) as nat == e + 1);
    }
}

/// No two networks of `s` span the same addresses.
pub open spec fn keys_unique(s: Set<NetRange>) -> bool {
    forall|a: NetRange, b: NetRange|
        #![trigger s.contains(a), s.contains(b)]
        s.contains(a) && s.contains(b) && a.same_key(b) ==> a == b
}

/// A well-formed subtree holds each network once.
pub proof fn lemma_keys_unique(n: Node)
    requires
        n.wf(),
    ensures
        keys_unique(n.ranges()),
    decreases n,
{
    if let Some(x) = n.left {
        lemma_keys_unique(*x);
    }
    if let Some(x) = n.right {
        lemma_keys_unique(*x);
    }
    let l = tree_ranges(n.left);
    let r = tree_ranges(n.right);
    assert(n.ranges() == l.union(r).insert(n.data));
    assert forall|a: NetRange, b: NetRange|
        n.ranges().contains(a) && n.ranges().contains(b) && a.same_key(b) implies a == b by {
        if l.contains(a) {
            assert(a.key_lt(n.data));
        }
        if r.contains(a) {
            assert(n.data.key_lt(a));
        }
        if l.contains(b) {
            assert(b.key_lt(n.data));
        }
        if r.contains(b) {
            assert(n.data.key_lt(b));
        }
    }
}

/// A tree whose network count fits in `usize` is less than 255 levels high.
proof fn lemma_height_fits(n: Node)
    requires
        n.wf(),
        n.ranges().len() < usize::MAX,
    ensures
        n.height < 255,
{
    lemma_size(n);
    if n.height >= 255 {
        vstd::arithmetic::power2::lemma2_to64();
        lemma_pow2_strictly_increases(64, 128);
    }
}

/// The recorded height of an optional subtree, -1 when it is empty.
fn height(node: &Option<Box<Node>>) -> (r: i16)
    ensures
        r as int == ht(*node),
{
    match node {
        None => -1,
        Some(n) => n.height as i16,
    }
}

} // verus!
