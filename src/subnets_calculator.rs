//! VLSM allocation: subnets for a list of host counts, largest first, each
//! starting where the previous one ends.
use vstd::prelude::*;
use vstd::seq_lib::{group_to_multiset_ensures, to_multiset_build, to_multiset_insert};

use crate::ipv4::{ipv4_text, no_address_text};
use crate::subnet::{
    Subnet, SubnetError, calculated_subnet, lemma_block_addresses, lemma_block_bits_bound,
    lemma_next_cidr,
};

verus! {

/// Host counts from largest to smallest.
pub open spec fn sorted_descending(s: Seq<u32>) -> bool {
    forall|i: int, j: int| 0 <= i < j < s.len() ==> s[i] >= s[j]
}

/// `blocks` are the calculated subnets for `hosts` in order, the first at
/// `network` and each later one at the next network of the one before it.
pub open spec fn is_allocation(blocks: Seq<Subnet>, network: u32, hosts: Seq<u32>) -> bool {
    &&& blocks.len() == hosts.len()
    &&& forall|i: int|
        0 <= i < blocks.len() ==> #[trigger] blocks[i] == calculated_subnet(
            if i == 0 {
                network
            } else {
                blocks[i - 1].next_subnet
            },
            hosts[i],
        )
}

/// Each subnet of an allocation starts at the next network of the one
/// before it: right after its broadcast address, unless that one ends at the
/// top of the address space.
pub proof fn lemma_allocation_contiguous(blocks: Seq<Subnet>, network: u32, hosts: Seq<u32>)
    requires
        is_allocation(blocks, network, hosts),
        forall|i: int| 0 <= i < hosts.len() ==> #[trigger] hosts[i] < 0xffff_ffffu32,
    ensures
        forall|i: int|
            0 < i < blocks.len() ==> (#[trigger] blocks[i]).network == blocks[i - 1].next_subnet
                && (blocks[i - 1].broadcast < 0xffff_ffffu32 ==> blocks[i].network
                == blocks[i - 1].broadcast + 1),
{
    reveal(calculated_subnet);
    assert forall|i: int| 0 < i < blocks.len() implies (#[trigger] blocks[i]).network
        == blocks[i - 1].next_subnet && (blocks[i - 1].broadcast < 0xffff_ffffu32
        ==> blocks[i].network == blocks[i - 1].broadcast + 1) by {
        let prev_network = if i - 1 == 0 {
            network
        } else {
            blocks[i - 2].next_subnet
        };
        assert(blocks[i - 1] == calculated_subnet(prev_network, hosts[i - 1]));
        lemma_block_addresses(prev_network, hosts[i - 1]);
    }
}

/// One more calculated subnet, at the next network of the last one, extends
/// an allocation.
proof fn lemma_allocation_push(blocks: Seq<Subnet>, network: u32, hosts: Seq<u32>, h: u32)
    requires
        is_allocation(blocks, network, hosts),
    ensures
        is_allocation(
            blocks.push(
                calculated_subnet(
                    if blocks.len() == 0 {
                        network
                    } else {
                        blocks.last().next_subnet
                    },
                    h,
                ),
            ),
            network,
            hosts.push(h),
        ),
{
    let b = blocks.push(
        calculated_subnet(
            if blocks.len() == 0 {
                network
            } else {
                blocks.last().next_subnet
            },
            h,
        ),
    );
    assert forall|k: int| 0 <= k < b.len() implies #[trigger] b[k] == calculated_subnet(
        if k == 0 {
            network
        } else {
            b[k - 1].next_subnet
        },
        hosts.push(h)[k],
    ) by {
        if k < blocks.len() {
            assert(b[k] == blocks[k]);
            if k > 0 {
                assert(b[k - 1] == blocks[k - 1]);
            }
        }
    }
}

/// Sorts `v` from largest to smallest.
pub fn sort_descending(v: &mut Vec<u32>)
    ensures
        sorted_descending(final(v)@),
        final(v)@.to_multiset() == old(v)@.to_multiset(),
{
    broadcast use group_to_multiset_ensures;

    let mut out: Vec<u32> = Vec::new();
    let mut i: usize = 0;
    while i < v.len()
        invariant
            i <= v.len(),
            sorted_descending(out@),
            out@.to_multiset() == v@.take(i as int).to_multiset(),
        decreases v.len() - i,
    {
        let x = v[i];
        let mut j: usize = 0;
        while j < out.len() && out[j] >= x
            invariant
                j <= out.len(),
                forall|k: int| 0 <= k < j ==> out@[k] >= x,
            decreases out.len() - j,
        {
            j = j + 1;
        }
        let ghost before = out@;
        out.insert(j, x);
        proof {
            assert forall|a: int, b: int| 0 <= a < b < out@.len() implies out@[a] >= out@[b] by {
                if b < j {
                } else if b == j {
                } else if a < j {
                    assert(out@[b] == before[b - 1]);
                    assert(before[j as int] < x);
                } else if a == j {
                    assert(out@[b] == before[b - 1]);
                    assert(before[j as int] < x);
                } else {
                    assert(out@[a] == before[a - 1]);
                    assert(out@[b] == before[b - 1]);
                }
            }
            assert(v@.take(i + 1) =~= v@.take(i as int).push(x));
            to_multiset_insert(before, j as int, x);
            to_multiset_build(v@.take(i as int), x);
        }
        i = i + 1;
    }
    proof {
        assert(v@.take(v@.len() as int) =~= v@);
    }
    *v = out;
}

/// Allocates subnets for a list of host counts.
pub struct SubnetCalculator {
    pub subnets: Vec<Subnet>,
    num_hosts_array: Vec<u32>,
}

impl SubnetCalculator {
    /// The subnets allocated so far, in order.
    pub closed spec fn allocated(self) -> Seq<Subnet> {
        self.subnets@
    }

    /// The host counts still to allocate, in their current order.
    pub closed spec fn host_counts(self) -> Seq<u32> {
        self.num_hosts_array@
    }

    pub fn new(num_hosts_array: Vec<u32>) -> (r: SubnetCalculator)
        ensures
            r.allocated() == Seq::<Subnet>::empty(),
            r.host_counts() == num_hosts_array@,
    {
        SubnetCalculator { subnets: Vec::new(), num_hosts_array }
    }

    /// Sorts the host counts from largest to smallest and appends to
    /// `subnets` one calculated subnet for each, the first at `network`, each
    /// later one at the next network of the one before it. Nothing is
    /// appended on an error, which only the first subnet can meet.
    #[verifier::rlimit(100)]
    pub fn calculate(&mut self, network: &str, cidr: u32) -> (r: Result<(), SubnetError>)
        ensures
            sorted_descending(final(self).host_counts()),
            final(self).host_counts().to_multiset() == old(self).host_counts().to_multiset(),
            ({
                let hosts = final(self).host_counts();
                let added = final(self).allocated().subrange(
                    old(self).allocated().len() as int,
                    final(self).allocated().len() as int,
                );
                match r {
                    Ok(()) => old(self).allocated().len() <= final(self).allocated().len()
                        && final(self).allocated().subrange(0, old(self).allocated().len() as int)
                        == old(self).allocated() && (hosts.len() == 0 ==> added.len() == 0) && (
                    hosts.len() > 0 ==> cidr <= 32 && hosts[0] < 0xffff_ffffu32 && exists|
                        v: u32,
                    |
                        network@ == ipv4_text(v) && is_allocation(added, v, hosts)),
                    Err(SubnetError::InvalidIpAddress(t)) => hosts.len() > 0 && no_address_text(
                        network@,
                    ) && t@ == network@ && final(self).allocated() == old(self).allocated(),
                    Err(SubnetError::InvalidCidr(c)) => hosts.len() > 0 && !no_address_text(
                        network@,
                    ) && final(self).allocated() == old(self).allocated() && ((cidr > 32 && c == cidr)
                        || (cidr <= 32 && hosts[0] == 0xffff_ffffu32 && c == 0xffff_ffffu32)),
                    Err(SubnetError::IoError(_)) => false,
                }
            }),
    {
        let ghost given = self.num_hosts_array@;
        sort_descending(&mut self.num_hosts_array);
        let n = self.num_hosts_array.len();
        let ghost old_subnets = self.subnets@;
        let ghost hosts = self.num_hosts_array@;
        if n == 0 {
            proof {
                assert(self.subnets@.subrange(0, old_subnets.len() as int) =~= old_subnets);
                assert(self.subnets@.subrange(old_subnets.len() as int, old_subnets.len() as int)
                    =~= Seq::<Subnet>::empty());
            }
            return Ok(());
        }
        let start = match Subnet::string_to_ip(network) {
            Ok(v) => v,
            Err(e) => {
                return Err(e);
            },
        };
        let mut net = start;
        let mut net_cidr = cidr;
        let mut i: usize = 0;
        while i < n
            invariant
                n == hosts.len(),
                n > 0,
                self.num_hosts_array@ == hosts,
                sorted_descending(hosts),
                hosts.to_multiset() == given.to_multiset(),
                given == old(self).num_hosts_array@,
                old_subnets == old(self).subnets@,
                network@ == ipv4_text(start),
                i <= n,
                self.subnets@.len() == old_subnets.len() + i,
                self.subnets@.subrange(0, old_subnets.len() as int) == old_subnets,
                is_allocation(
                    self.subnets@.subrange(old_subnets.len() as int, self.subnets@.len() as int),
                    start,
                    hosts.take(i as int),
                ),
                i == 0 ==> net == start && net_cidr == cidr,
                i > 0 ==> net == self.subnets@.last().next_subnet && net_cidr <= 32,
                i > 0 ==> cidr <= 32 && hosts[0] < 0xffff_ffffu32,
            decreases n - i,
        {
            let h = self.num_hosts_array[i];
            proof {
                lemma_block_bits_bound(h);
                lemma_block_bits_bound(hosts[0]);
            }
            let mut subnet = match Subnet::with_network(net, net_cidr, h) {
                Ok(s) => s,
                Err(e) => {
                    proof {
                        assert(i == 0);
                        assert(self.subnets@ =~= old_subnets);
                        assert(self.num_hosts_array@ == hosts);
                        assert(!no_address_text(network@));
                    }
                    return Err(e);
                },
            };
            match subnet.calculate() {
                Ok(()) => {},
                Err(e) => {
                    proof {
                        assert(i == 0) by {
                            if i > 0 {
                                assert(hosts[0] >= hosts[i as int]);
                            }
                        }
                        assert(self.subnets@ =~= old_subnets);
                        assert(self.num_hosts_array@ == hosts);
                        assert(!no_address_text(network@));
                    }
                    return Err(e);
                },
            }
            let ghost prev = self.subnets@;
            self.subnets.push(subnet);
            proof {
                lemma_next_cidr(net, h);
                let added = self.subnets@.subrange(
                    old_subnets.len() as int,
                    self.subnets@.len() as int,
                );
                let prev_added = prev.subrange(old_subnets.len() as int, prev.len() as int);
                assert(added =~= prev_added.push(subnet));
                assert(hosts.take(i + 1) =~= hosts.take(i as int).push(h));
                assert(self.subnets@.subrange(0, old_subnets.len() as int) =~= prev.subrange(
                    0,
                    old_subnets.len() as int,
                ));
                if i > 0 {
                    assert(prev_added.last() == prev.last());
                }
                lemma_allocation_push(prev_added, start, hosts.take(i as int), h);
            }
            net = subnet.next_subnet;
            net_cidr = subnet.next_cidr;
            i = i + 1;
        }
        proof {
            assert(hosts.take(n as int) =~= hosts);
            assert(is_allocation(
                self.subnets@.subrange(old_subnets.len() as int, self.subnets@.len() as int),
                start,
                hosts,
            ));
        }
        Ok(())
    }
}

} // verus!
