//! Addresses and names of the network namespaces attached to a bridge of a
//! WebAssembly deployment.  The first address of the subnet is the
//! bridge's, the second is skipped (the gateway), and the namespaces get
//! the following ones in turn; the last address of the subnet is kept for
//! broadcast.
use vstd::prelude::*;
use crate::text::{decimal, push_decimal, push_chars, string_from_chars};

verus! {

/// The netmask of a subnet whose prefix has `n` bits.
pub open spec fn subnet_mask(n: u8) -> u32
    recommends
        n <= 32,
{
    if n == 0 {
        0
    } else {
        (0xffff_ffffu32 << ((32 - n) as u32)) as u32
    }
}

/// An address between two addresses of one subnet lies in that subnet.
proof fn lemma_in_block(x: u32, y: u32, z: u32, n: u8)
    requires
        n <= 32,
        x <= y <= z,
        (x & subnet_mask(n)) == (z & subnet_mask(n)),
    ensures
        (y & subnet_mask(n)) == (x & subnet_mask(n)),
{
    if n == 0 {
        assert(subnet_mask(n) == 0);
        assert((y & 0u32) == 0u32 && (x & 0u32) == 0u32) by (bit_vector);
    } else {
        let s: u32 = (32 - n) as u32;
        let m: u32 = (0xffff_ffffu32 << s) as u32;
        assert(subnet_mask(n) == m);
        assert((y & m) == (x & m)) by (bit_vector)
            requires
                s < 32,
                m == 0xffff_ffffu32 << s,
                x <= y,
                y <= z,
                (x & m) == (z & m),
        ;
    }
}

/// The bridge side of the namespaces: the bridge's address, the length of
/// its subnet prefix, and the addresses leased so far, in order.
pub struct LeasePool {
    pub base: u32,
    pub subnet: u8,
    pub leased: Vec<u32>,
}

/// What the next namespace is made of.
pub struct NamespacePlan {
    /// `k_ns_<n>`, `n` the number of namespaces leased before.
    pub name: String,
    /// `k_veth_<n>`.
    pub veth: String,
    /// `k_veth_<n>_p`, the end of the pair on the bridge.
    pub veth_peer: String,
    pub addr: u32,
}

/// The subnet has no address left.
#[derive(Clone, Copy, Debug, PartialEq, Eq, Structural)]
pub struct SubnetFull;

impl LeasePool {
    /// The leases are the addresses after the gateway, in turn.
    pub open spec fn wf(&self) -> bool {
        &&& self.subnet <= 32
        &&& forall|i: int| 0 <= i < self.leased@.len() ==> #[trigger] self.leased@[i] == self.base + 2 + i
        &&& forall|i: int|
            0 <= i < self.leased@.len() ==> (#[trigger] self.leased@[i] & subnet_mask(self.subnet)) == (self.base
                & subnet_mask(self.subnet))
    }

    /// The address the next namespace gets.
    pub open spec fn next_addr(&self) -> int {
        self.base + 2 + self.leased@.len()
    }

    /// Whether the next address still lies in the subnet with room for the
    /// broadcast address after it.
    pub open spec fn has_room(&self) -> bool {
        (self.base & subnet_mask(self.subnet)) == (((self.next_addr() + 1) as u32) & subnet_mask(self.subnet))
    }

    /// The pool of a bridge at `base` with a prefix of `subnet` bits.
    pub fn new(base: u32, subnet: u8) -> (p: LeasePool)
        requires
            subnet <= 32,
        ensures
            p.wf(),
            p.base == base,
            p.subnet == subnet,
            p.leased@.len() == 0,
    {
        LeasePool { base, subnet, leased: Vec::new() }
    }

    /// The netmask of the pool's subnet.
    pub fn mask(&self) -> (m: u32)
        requires
            self.wf(),
        ensures
            m == subnet_mask(self.subnet),
    {
        if self.subnet == 0 {
            0
        } else {
            let shift: u32 = (32 - self.subnet) as u32;
            0xffff_ffffu32 << shift
        }
    }

    /// What the next namespace is made of, or `SubnetFull` when its address,
    /// or the broadcast address after it, would leave the subnet.
    pub fn next_namespace(&self) -> (r: Result<NamespacePlan, SubnetFull>)
        requires
            self.wf(),
            self.next_addr() + 1 <= u32::MAX,
        ensures
            r is Ok <==> self.has_room(),
            r matches Ok(p) ==> {
                &&& p.addr == self.next_addr()
                &&& (p.addr & subnet_mask(self.subnet)) == (self.base & subnet_mask(self.subnet))
                &&& p.name@ == seq!['k', '_', 'n', 's', '_'] + decimal(self.leased@.len())
                &&& p.veth@ == seq!['k', '_', 'v', 'e', 't', 'h', '_'] + decimal(self.leased@.len())
                &&& p.veth_peer@ == p.veth@ + seq!['_', 'p']
            },
    {
        let n = self.leased.len();
        let addr: u32 = if n == 0 {
            self.base + 2
        } else {
            self.leased[n - 1] + 1
        };
        let mask = self.mask();
        if (self.base & mask) != ((addr + 1) & mask) {
            return Err(SubnetFull);
        }
        proof {
            lemma_in_block(self.base, addr, (addr + 1) as u32, self.subnet);
        }
        let mut name: Vec<char> = Vec::new();
        let ns = ['k', '_', 'n', 's', '_'];
        push_chars(&mut name, &ns);
        push_decimal(n as u64, &mut name);
        let mut veth: Vec<char> = Vec::new();
        let ve = ['k', '_', 'v', 'e', 't', 'h', '_'];
        push_chars(&mut veth, &ve);
        push_decimal(n as u64, &mut veth);
        let mut peer: Vec<char> = Vec::new();
        push_chars(&mut peer, veth.as_slice());
        let p = ['_', 'p'];
        push_chars(&mut peer, &p);
        proof {
            assert(ns@ =~= seq!['k', '_', 'n', 's', '_']);
            assert(ve@ =~= seq!['k', '_', 'v', 'e', 't', 'h', '_']);
            assert(p@ =~= seq!['_', 'p']);
        }
        Ok(
            NamespacePlan {
                name: string_from_chars(name.as_slice()),
                veth: string_from_chars(veth.as_slice()),
                veth_peer: string_from_chars(peer.as_slice()),
                addr,
            },
        )
    }

    /// Records that the next address was leased to a namespace.
    pub fn record_lease(&mut self)
        requires
            old(self).wf(),
            old(self).next_addr() + 1 <= u32::MAX,
            old(self).has_room(),
        ensures
            final(self).wf(),
            final(self).leased@ == old(self).leased@.push(old(self).next_addr() as u32),
            final(self).base == old(self).base,
            final(self).subnet == old(self).subnet,
    {
        let n = self.leased.len();
        let addr: u32 = if n == 0 {
            self.base + 2
        } else {
            self.leased[n - 1] + 1
        };
        proof {
            lemma_in_block(self.base, addr, (addr + 1) as u32, self.subnet);
        }
        self.leased.push(addr);
    }
}

} // verus!
