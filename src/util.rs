use crate::network::{Ipv4Net, Ipv6Net};
use vstd::math::min;
use vstd::prelude::*;

verus! {

/// The big-endian bytes of `v`, most significant first, `n` of them.
pub open spec fn be_bytes(v: nat, n: nat) -> Seq<u8>
    decreases n,
{
    if n == 0 {
        Seq::empty()
    } else {
        be_bytes(v / 256, (n - 1) as nat).push((v % 256) as u8)
    }
}

/// The number of whole or partial bytes that a prefix of `len` bits spans.
pub open spec fn prefix_bytes(len: nat) -> nat {
    (len + 7) / 8
}

/// The number of bytes in a big-endian string of `n` bytes.
proof fn lemma_be_bytes_len(v: nat, n: nat)
    ensures
        be_bytes(v, n).len() == n,
    decreases n,
{
    if n > 0 {
        lemma_be_bytes_len(v / 256, (n - 1) as nat);
    }
}

/// A byte string that keys a value for prefix-ordered containers.
pub trait Bytekey {
    spec fn bytekey_spec(&self) -> Seq<u8>;

    fn get_bytekey(&self) -> (r: Vec<u8>)
        ensures
            r@ == self.bytekey_spec(),
    ;
}

/// The low `n` bytes of `v`, big-endian.
fn to_be_bytes(v: u128, n: usize) -> (r: Vec<u8>)
    requires
        n <= 16,
    ensures
        r@ == be_bytes(v as nat, n as nat),
    decreases n,
{
    if n == 0 {
        Vec::new()
    } else {
        let mut r = to_be_bytes(v / 256, n - 1);
        r.push((v % 256) as u8);
        r
    }
}

/// The first `k` bytes of `s`, or all of `s` when it is shorter.
fn take_front(s: Vec<u8>, k: usize) -> (r: Vec<u8>)
    ensures
        r@ == s@.subrange(0, if k < s.len() { k as int } else { s.len() as int }),
{
    let k = if k < s.len() { k } else { s.len() };
    let mut r: Vec<u8> = Vec::new();
    let mut i: usize = 0;
    while i < k
        invariant
            i <= k <= s.len(),
            r@ == s@.subrange(0, i as int),
        decreases k - i,
    {
        r.push(s[i]);
        i = i + 1;
    }
    r
}

impl Bytekey for u32 {
    /// The four bytes of an IPv4 address, most significant first.
    open spec fn bytekey_spec(&self) -> Seq<u8> {
        be_bytes(*self as nat, 4)
    }

    fn get_bytekey(&self) -> (r: Vec<u8>) {
        to_be_bytes(*self as u128, 4)
    }
}

impl Bytekey for u128 {
    /// The sixteen bytes of an IPv6 address, most significant first.
    open spec fn bytekey_spec(&self) -> Seq<u8> {
        be_bytes(*self as nat, 16)
    }

    fn get_bytekey(&self) -> (r: Vec<u8>) {
        to_be_bytes(*self, 16)
    }
}

impl Bytekey for Ipv4Net {
    /// The bytes of the first address that the prefix reaches into.
    open spec fn bytekey_spec(&self) -> Seq<u8> {
        be_bytes(self.first as nat, 4).subrange(0, min(prefix_bytes(self.len as nat) as int, 4))
    }

    fn get_bytekey(&self) -> (r: Vec<u8>) {
        let bytes = to_be_bytes(self.first as u128, 4);
        proof {
            lemma_be_bytes_len(self.first as nat, 4);
        }
        let mut byte_count = self.len / 8;
        if self.len % 8 > 0 {
            byte_count = byte_count + 1;
        }
        take_front(bytes, byte_count as usize)
    }
}

impl Bytekey for Ipv6Net {
    /// The bytes of the first address that the prefix reaches into.
    open spec fn bytekey_spec(&self) -> Seq<u8> {
        be_bytes(self.first as nat, 16).subrange(0, min(prefix_bytes(self.len as nat) as int, 16))
    }

    fn get_bytekey(&self) -> (r: Vec<u8>) {
        let bytes = to_be_bytes(self.first, 16);
        proof {
            lemma_be_bytes_len(self.first as nat, 16);
        }
        let mut byte_count = self.len / 8;
        if self.len % 8 > 0 {
            byte_count = byte_count + 1;
        }
        take_front(bytes, byte_count as usize)
    }
}

} // verus!
