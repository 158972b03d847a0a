//! One allocated subnet: its fields and the arithmetic that derives them.
use vstd::arithmetic::power2::{
    lemma2_to64, lemma2_to64_rest, lemma_pow2_strictly_increases, lemma_pow2_unfold, pow2,
};
use vstd::prelude::*;
use vstd::string::*;

use crate::ipv4::{decimal_text, ipv4_text, no_address_text, parse_ipv4, push_decimal, push_ipv4};

verus! {

/// The number of bits in an IPv4 address.
pub const IPV4_BITS: u32 = 32;

/// `std::io::Error`, carried unopened in `SubnetError::IoError`.
#[verifier::external_type_specification]
#[verifier::external_body]
pub struct ExIoError(std::io::Error);

/// What can go wrong while building or calculating a subnet.
#[derive(Debug)]
pub enum SubnetError {
    /// The network text is not a dotted-quad IPv4 address.
    InvalidIpAddress(String),
    /// A prefix length above 32.
    InvalidCidr(u32),
    /// A failure at the I/O boundary; the arithmetic never raises it.
    IoError(std::io::Error),
}

/// A subnet and its calculated fields. Addresses are `u32` values, most
/// significant octet first.
#[derive(Debug, Clone, Copy, PartialEq, Eq, Structural)]
pub struct Subnet {
    pub network: u32,
    pub mask: u32,
    pub class: char,
    pub cidr: u32,
    pub first_host: u32,
    pub last_host: u32,
    pub broadcast: u32,
    pub gateway: u32,
    pub hosts: u32,
    pub real_hosts: u32,
    pub next_subnet: u32,
    pub next_cidr: u32,
}

/// The subnet mask of a prefix length `cidr <= 32`: `cidr` one bits, then zeros.
pub open spec fn mask_of(cidr: u32) -> u32 {
    if cidr == 0 {
        0
    } else {
        0xffff_ffffu32 << ((32 - cidr) as u32)
    }
}

/// The size class of a prefix length: a label bucketed by prefix length alone,
/// not the classful addressing scheme.
pub open spec fn class_of(cidr: u32) -> char {
    if cidr <= 8 {
        'A'
    } else if cidr <= 16 {
        'B'
    } else if cidr <= 24 {
        'C'
    } else if cidr <= 32 {
        'D'
    } else {
        'E'
    }
}

/// The least `k` with `2^k >= n`.
pub open spec fn ceil_log2(n: nat) -> nat
    decreases n,
{
    if n <= 1 {
        0
    } else {
        1 + ceil_log2(((n + 1) / 2) as nat)
    }
}

/// The number of host bits of the smallest block whose usable addresses
/// (all but network and broadcast) number at least `hosts`.
pub open spec fn block_bits(hosts: u32) -> nat {
    ceil_log2((hosts + 2) as nat)
}

/// The address after `a`, saturating at the top of the address space.
pub open spec fn next_address(a: u32) -> u32 {
    if a == 0xffff_ffffu32 {
        a
    } else {
        (a + 1) as u32
    }
}

/// A subnet as built, before its fields are calculated.
pub open spec fn fresh_subnet(network: u32, cidr: u32, hosts: u32) -> Subnet {
    Subnet {
        network,
        mask: mask_of(cidr),
        class: class_of(cidr),
        cidr,
        first_host: 0,
        last_host: 0,
        broadcast: 0,
        gateway: 0,
        hosts,
        real_hosts: 0,
        next_subnet: 0,
        next_cidr: 0,
    }
}

/// The subnet for `hosts` hosts at `network`, all fields calculated
/// (meaningful when `block_bits(hosts) <= 32`).
#[verifier::opaque]
pub open spec fn calculated_subnet(network: u32, hosts: u32) -> Subnet {
    let k = block_bits(hosts);
    let cidr = (32 - k) as u32;
    let mask = mask_of(cidr);
    let broadcast = network | !mask;
    Subnet {
        network,
        mask,
        class: class_of(cidr),
        cidr,
        first_host: network | 1u32,
        last_host: broadcast & 0xffff_fffdu32,
        broadcast,
        gateway: broadcast & 0xffff_fffeu32,
        hosts,
        real_hosts: (pow2(k) - 2) as u32,
        next_subnet: next_address(broadcast),
        next_cidr: cidr,
    }
}

/// Head of a subnet's Markdown table: the column names and the separator row.
pub const TABLE_HEAD: &'static str = "| **Network** | **Mask** | **CIDR** | **Class** | **Broadcast** | **Gateway** | **First Host** | **Last Host** | **Hosts** | **Real Hosts** | **Wasted Hosts** |\n| --- | --- | --- | --- | --- | --- | --- | --- | --- | --- | --- |\n| ";

/// Separator between two cells of a table row.
pub const CELL: &'static str = " | ";

/// End of a table row.
pub const ROW_END: &'static str = " |";

/// Head of a subnet's section in a Markdown report, before its number.
pub const SECTION_HEAD: &'static str = "## Subnet ";

/// Between a section's number and its table.
pub const SECTION_MID: &'static str = ":\n\n";

/// End of a section: a rule after the table.
pub const SECTION_END: &'static str = "\n---\n";

/// Addresses that a subnet's block holds beyond those asked for.
pub open spec fn wasted_hosts(s: Subnet) -> nat {
    (s.real_hosts + 2 - s.hosts) as nat
}

/// The Markdown table of a subnet: one header row and one row of values.
#[verifier::opaque]
pub open spec fn markdown_table(s: Subnet) -> Seq<char> {
    TABLE_HEAD@ + ipv4_text(s.network) + CELL@ + ipv4_text(s.mask) + CELL@ + decimal_text(
        s.cidr as nat,
    ) + CELL@ + seq![s.class] + CELL@ + ipv4_text(s.broadcast) + CELL@ + ipv4_text(s.gateway)
        + CELL@ + ipv4_text(s.first_host) + CELL@ + ipv4_text(s.last_host) + CELL@ + decimal_text(
        s.hosts as nat,
    ) + CELL@ + decimal_text(s.real_hosts as nat) + CELL@ + decimal_text(wasted_hosts(s))
        + ROW_END@
}

/// The section of the subnet numbered `i` in a Markdown report.
pub open spec fn markdown_section(i: nat, s: Subnet) -> Seq<char> {
    SECTION_HEAD@ + decimal_text(i) + SECTION_MID@ + markdown_table(s) + SECTION_END@
}

/// A Markdown report: the sections of the subnets, numbered from zero.
pub open spec fn markdown_report_text(subnets: Seq<Subnet>) -> Seq<char>
    decreases subnets.len(),
{
    if subnets.len() == 0 {
        Seq::empty()
    } else {
        markdown_report_text(subnets.drop_last()) + markdown_section(
            (subnets.len() - 1) as nat,
            subnets.last(),
        )
    }
}

/// Relies on `String::push`: appends one character.
#[verifier::external_body]
fn push_char(out: &mut String, c: char)
    ensures
        final(out)@ == old(out)@.push(c),
{
    out.push(c)
}

/// The least `k` with `2^k >= n` is at least that large, and no smaller one is.
proof fn lemma_ceil_log2(n: nat)
    requires
        n >= 1,
    ensures
        pow2(ceil_log2(n)) >= n,
        ceil_log2(n) == 0 || pow2((ceil_log2(n) - 1) as nat) < n,
    decreases n,
{
    lemma2_to64();
    if n > 1 {
        let m = ((n + 1) / 2) as nat;
        lemma_ceil_log2(m);
        lemma_pow2_unfold(ceil_log2(n));
        if ceil_log2(m) > 0 {
            lemma_pow2_unfold(ceil_log2(m));
        }
    }
}

/// `pow2` grows with its exponent.
proof fn lemma_pow2_monotone(a: nat, b: nat)
    requires
        a <= b,
    ensures
        pow2(a) <= pow2(b),
{
    if a < b {
        lemma_pow2_strictly_increases(a, b);
    }
}

/// Only the largest host count needs a block of more than 32 bits.
pub proof fn lemma_block_bits_bound(hosts: u32)
    ensures
        block_bits(hosts) <= 32 <==> hosts < 0xffff_ffffu32,
        block_bits(hosts) >= 1,
{
    let n = (hosts + 2) as nat;
    lemma_ceil_log2(n);
    lemma2_to64();
    lemma2_to64_rest();
    let k = block_bits(hosts);
    if k > 32 {
        lemma_pow2_monotone(32, (k - 1) as nat);
    } else {
        lemma_pow2_monotone(k, 32);
    }
}

/// A calculated block's usable addresses hold the hosts asked for, and no
/// smaller block of the form `2^j - 2` does.
pub proof fn lemma_usable_hosts_minimal(network: u32, hosts: u32)
    requires
        0 < hosts <= 0x3fff_fffe,
    ensures
        calculated_subnet(network, hosts).real_hosts == pow2(block_bits(hosts)) - 2,
        calculated_subnet(network, hosts).real_hosts >= hosts,
        forall|j: nat|
            pow2(j) - 2 >= hosts ==> calculated_subnet(network, hosts).real_hosts <= #[trigger] pow2(j)
                - 2,
{
    reveal(calculated_subnet);
    let n = (hosts + 2) as nat;
    let k = block_bits(hosts);
    lemma_ceil_log2(n);
    lemma_block_bits_bound(hosts);
    lemma2_to64();
    lemma_pow2_monotone(k, 32);
    assert forall|j: nat| pow2(j) - 2 >= hosts implies pow2(k) <= pow2(j) by {
        if j < k {
            lemma_pow2_monotone(j, (k - 1) as nat);
        } else {
            lemma_pow2_monotone(k, j);
        }
    }
}

/// The address fields of a calculated block: the broadcast address sets every
/// host bit of the network, the first host follows an even network address,
/// and the next network follows the broadcast address, or stays at the top
/// of the address space.
pub proof fn lemma_block_addresses(network: u32, hosts: u32)
    requires
        hosts < 0xffff_ffffu32,
    ensures
        ({
            let s = calculated_subnet(network, hosts);
            &&& s.cidr <= 31
            &&& s.next_cidr == s.cidr
            &&& s.mask == mask_of(s.cidr)
            &&& s.broadcast == s.network | !s.mask
            &&& network % 2 == 0 ==> s.first_host == s.network + 1
            &&& s.broadcast < 0xffff_ffffu32 ==> s.next_subnet == s.broadcast + 1
            &&& s.broadcast == 0xffff_ffffu32 ==> s.next_subnet == s.broadcast
        }),
{
    reveal(calculated_subnet);
    lemma_block_bits_bound(hosts);
    assert(network % 2 == 0 ==> network | 1u32 == (network + 1) as u32) by (bit_vector);
}

/// The next prefix length of a calculated block is a valid one.
pub proof fn lemma_next_cidr(network: u32, hosts: u32)
    requires
        hosts < 0xffff_ffffu32,
    ensures
        calculated_subnet(network, hosts).next_cidr <= 32,
{
    reveal(calculated_subnet);
    lemma_block_bits_bound(hosts);
}

/// Calculating a calculated block again changes nothing.
pub proof fn lemma_calculate_idempotent(network: u32, hosts: u32)
    ensures
        ({
            let s = calculated_subnet(network, hosts);
            calculated_subnet(s.network, s.hosts) == s
        }),
{
    reveal(calculated_subnet);
}

/// `k` is the least exponent with `2^k >= n`.
proof fn lemma_ceil_log2_unique(n: nat, k: nat)
    requires
        pow2(k) >= n,
        k == 0 || pow2((k - 1) as nat) < n,
    ensures
        ceil_log2(n) == k,
    decreases k,
{
    if k == 0 {
        lemma2_to64();
    } else {
        lemma_pow2_unfold(k);
        lemma2_to64();
        let m = ((n + 1) / 2) as nat;
        if k > 1 {
            lemma_pow2_unfold((k - 1) as nat);
        }
        lemma_ceil_log2_unique(m, (k - 1) as nat);
    }
}

impl Subnet {
    /// Builds a subnet from the text of its network address; the derived
    /// fields stay zero until `calculate`.
    pub fn new(network: &str, cidr: u32, hosts: u32) -> (r: Result<Subnet, SubnetError>)
        ensures
            match r {
                Ok(s) => network@ == ipv4_text(s.network) && cidr <= 32 && s == fresh_subnet(
                    s.network,
                    cidr,
                    hosts,
                ),
                Err(SubnetError::InvalidIpAddress(t)) => no_address_text(network@) && t@
                    == network@,
                Err(SubnetError::InvalidCidr(c)) => !no_address_text(network@) && cidr > 32 && c
                    == cidr,
                Err(SubnetError::IoError(_)) => false,
            },
    {
        let address = Subnet::string_to_ip(network)?;
        Subnet::with_network(address, cidr, hosts)
    }

    /// Builds a subnet at the address `network`; the derived fields stay zero
    /// until `calculate`.
    pub fn with_network(network: u32, cidr: u32, hosts: u32) -> (r: Result<Subnet, SubnetError>)
        ensures
            match r {
                Ok(s) => cidr <= 32 && s == fresh_subnet(network, cidr, hosts),
                Err(SubnetError::InvalidCidr(c)) => cidr > 32 && c == cidr,
                Err(_) => false,
            },
    {
        let mask = Subnet::cidr_to_mask(cidr)?;
        Ok(
            Subnet {
                network,
                mask,
                class: Subnet::determine_class(cidr),
                cidr,
                first_host: 0,
                last_host: 0,
                broadcast: 0,
                gateway: 0,
                hosts,
                real_hosts: 0,
                next_subnet: 0,
                next_cidr: 0,
            },
        )
    }

    /// Calculates every derived field from `network` and `hosts`: the block is
    /// the smallest power of two whose usable addresses hold `hosts`, and the
    /// mask, prefix length and class become those of that block.
    pub fn calculate(&mut self) -> (r: Result<(), SubnetError>)
        ensures
            match r {
                Ok(()) => block_bits(old(self).hosts) <= 32 && *final(self) == calculated_subnet(
                    old(self).network,
                    old(self).hosts,
                ),
                Err(SubnetError::InvalidCidr(c)) => block_bits(old(self).hosts) > 32 && c
                    == 0xffff_ffffu32 && *final(self) == *old(self),
                Err(_) => false,
            },
    {
        proof {
            reveal(calculated_subnet);
        }
        let need: u64 = self.hosts as u64 + 2;
        let mut bits: u32 = 0;
        let mut size: u64 = 1;
        proof {
            lemma2_to64();
            lemma2_to64_rest();
        }
        while size < need
            invariant
                need == self.hosts + 2,
                size == pow2(bits as nat),
                bits <= 33,
                bits == 0 || pow2((bits - 1) as nat) < need,
            decreases 33 - bits,
        {
            proof {
                lemma_pow2_unfold((bits + 1) as nat);
                if bits == 33 {
                    lemma2_to64_rest();
                }
            }
            size = size * 2;
            bits = bits + 1;
        }
        proof {
            lemma_ceil_log2_unique(need as nat, bits as nat);
        }
        if bits > IPV4_BITS {
            // the block would need a prefix of 32 - 33, read as u32
            return Err(SubnetError::InvalidCidr(0xffff_ffffu32));
        }
        let new_cidr = IPV4_BITS - bits;
        let new_mask = match Subnet::cidr_to_mask(new_cidr) {
            Ok(m) => m,
            Err(e) => {
                return Err(e);
            },
        };
        proof {
            lemma_pow2_strictly_increases(0, bits as nat);
        }
        self.real_hosts = (size - 2) as u32;
        self.mask = new_mask;
        self.cidr = new_cidr;
        self.class = Subnet::determine_class(new_cidr);
        self.broadcast = self.network | !new_mask;
        self.gateway = self.broadcast & 0xffff_fffeu32;
        self.first_host = self.network | 1u32;
        self.last_host = self.broadcast & 0xffff_fffdu32;
        self.next_subnet = self.broadcast.saturating_add(1);
        self.next_cidr = new_cidr;
        Ok(())
    }

    /// The address whose dotted-quad text is `ip`.
    pub fn string_to_ip(ip: &str) -> (r: Result<u32, SubnetError>)
        ensures
            match r {
                Ok(v) => ip@ == ipv4_text(v),
                Err(SubnetError::InvalidIpAddress(t)) => no_address_text(ip@) && t@ == ip@,
                Err(_) => false,
            },
    {
        match parse_ipv4(ip) {
            Some(v) => Ok(v),
            None => Err(SubnetError::InvalidIpAddress(ip.to_string())),
        }
    }

    /// The subnet mask of a prefix length.
    pub fn cidr_to_mask(cidr: u32) -> (r: Result<u32, SubnetError>)
        ensures
            match r {
                Ok(m) => cidr <= 32 && m == mask_of(cidr),
                Err(SubnetError::InvalidCidr(c)) => cidr > 32 && c == cidr,
                Err(_) => false,
            },
    {
        if cidr > IPV4_BITS {
            return Err(SubnetError::InvalidCidr(cidr));
        }
        if cidr == 0 {
            Ok(0)
        } else {
            Ok(u32::MAX << (IPV4_BITS - cidr))
        }
    }

    /// The size class of a prefix length.
    pub fn determine_class(cidr: u32) -> (r: char)
        ensures
            r == class_of(cidr),
    {
        if cidr <= 8 {
            'A'
        } else if cidr <= 16 {
            'B'
        } else if cidr <= 24 {
            'C'
        } else if cidr <= 32 {
            'D'
        } else {
            'E'
        }
    }

    /// The subnet as a Markdown table: a header row, a separator row and a
    /// row of values, the last one the wasted hosts.
    pub fn to_markdown_table(self) -> (r: String)
        requires
            self.hosts <= self.real_hosts + 2,
        ensures
            r@ == markdown_table(self),
    {
        let mut out = String::new();
        out.append(TABLE_HEAD);
        push_ipv4(&mut out, self.network);
        out.append(CELL);
        push_ipv4(&mut out, self.mask);
        out.append(CELL);
        push_decimal(&mut out, self.cidr as u64);
        out.append(CELL);
        push_char(&mut out, self.class);
        out.append(CELL);
        push_ipv4(&mut out, self.broadcast);
        out.append(CELL);
        push_ipv4(&mut out, self.gateway);
        out.append(CELL);
        push_ipv4(&mut out, self.first_host);
        out.append(CELL);
        push_ipv4(&mut out, self.last_host);
        out.append(CELL);
        push_decimal(&mut out, self.hosts as u64);
        out.append(CELL);
        push_decimal(&mut out, self.real_hosts as u64);
        out.append(CELL);
        push_decimal(&mut out, self.real_hosts as u64 + 2 - self.hosts as u64);
        out.append(ROW_END);
        proof {
            reveal(markdown_table);
            assert(out@ =~= markdown_table(self));
        }
        out
    }
}

/// The Markdown report of `subnets`: for each, a numbered heading, its table
/// and a rule.
pub fn markdown_report(subnets: &Vec<Subnet>) -> (r: String)
    requires
        forall|i: int|
            0 <= i < subnets@.len() ==> (#[trigger] subnets@[i]).hosts <= subnets@[i].real_hosts + 2,
    ensures
        r@ == markdown_report_text(subnets@),
{
    let mut out = String::new();
    let mut i: usize = 0;
    proof {
        assert(subnets@.take(0) =~= Seq::<Subnet>::empty());
    }
    while i < subnets.len()
        invariant
            i <= subnets@.len(),
            forall|k: int|
                0 <= k < subnets@.len() ==> (#[trigger] subnets@[k]).hosts <= subnets@[k].real_hosts
                    + 2,
            out@ == markdown_report_text(subnets@.take(i as int)),
        decreases subnets@.len() - i,
    {
        let s = subnets[i];
        let table = s.to_markdown_table();
        let ghost before = out@;
        out.append(SECTION_HEAD);
        push_decimal(&mut out, i as u64);
        out.append(SECTION_MID);
        out.append(table.as_str());
        out.append(SECTION_END);
        proof {
            let t = subnets@.take(i + 1);
            assert(t.drop_last() =~= subnets@.take(i as int));
            assert(t.last() == s);
            assert(out@ =~= before + markdown_section(i as nat, s));
        }
        i = i + 1;
    }
    proof {
        assert(subnets@.take(subnets@.len() as int) =~= subnets@);
    }
    out
}

} // verus!
