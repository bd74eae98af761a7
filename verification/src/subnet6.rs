//! Derivation of one IPv6 subnet from an `address/prefix` expression, over
//! the full 128-bit space.

use vstd::prelude::*;

use crate::addr6::{
    format_compressed_ipv6, format_full_ipv6, parse_ipv6, spec_ipv6_compressed, spec_ipv6_full,
    spec_parse_ipv6,
};
use crate::arith::{
    group_thousands, pow2, pow2_dec_digits, spec_digits, spec_thousands, u64_to_dec,
    lemma_pow2_shift128, lemma_pow2_mono, pow2_u64,
};
use crate::error::AddrError;
use crate::text::{
    chars_range, chars_to_string, find_char, first_index_of, parse_uint, spec_parse_uint,
    spec_trim, str_to_chars, trim_chars,
};

verus! {

/// Every representation derived for one IPv6 subnet.
#[derive(Debug)]
pub struct Ipv6SubnetResult {
    pub ipv6_address: String,
    pub full_ipv6_address: String,
    pub total_ip_addresses: String,
    pub network_address: String,
    pub network_address_full: String,
    pub ip_range: String,
    pub addresses: Vec<String>,
}

/// The 128-bit subnet mask for a prefix length.
pub open spec fn spec_mask128(prefix: u32) -> u128
    recommends
        prefix <= 128,
{
    if prefix == 0 {
        0u128
    } else {
        (0xffff_ffff_ffff_ffff_ffff_ffff_ffff_ffffu128 << ((128 - prefix) as u32))
    }
}

/// The lowest address of the block.
pub open spec fn spec_network6(ip: u128, prefix: u32) -> u128 {
    ip & spec_mask128(prefix)
}

/// The highest address of the block.
pub open spec fn spec_broadcast6(ip: u128, prefix: u32) -> u128 {
    spec_network6(ip, prefix) | !spec_mask128(prefix)
}

/// The block invariants over the 128-bit space: the highest address is the
/// lowest plus the block size less one.
pub proof fn lemma_subnet6_bounds(ip: u128, prefix: u32)
    requires
        prefix <= 128,
    ensures
        spec_network6(ip, prefix) <= ip,
        spec_network6(ip, prefix) <= spec_broadcast6(ip, prefix),
        spec_broadcast6(ip, prefix) - spec_network6(ip, prefix) + 1 == pow2((128 - prefix) as nat),
{
    let m = spec_mask128(prefix);
    let n = spec_network6(ip, prefix);
    let b = spec_broadcast6(ip, prefix);
    if prefix == 0 {
        assert(ip & 0 == 0 && (0u128 | !0u128) == 0xffff_ffff_ffff_ffff_ffff_ffff_ffff_ffffu128)
            by (bit_vector);
        lemma_pow2_shift128(127);
        assert(pow2(128) == 2 * pow2(127));
        assert((1u128 << 127u32) == 0x8000_0000_0000_0000_0000_0000_0000_0000) by (bit_vector);
    } else {
        let k = (128 - prefix) as u32;
        assert((ip & m) <= ip && (ip & m) <= ((ip & m) | !m) && (((ip & m) | !m) + 1 - (ip & m)) == (
        1u128 << k)) by (bit_vector)
            requires
                1 <= prefix <= 128 && k == 128 - prefix && m == (
                0xffff_ffff_ffff_ffff_ffff_ffff_ffff_ffffu128 << ((128 - prefix) as u32)),
        ;
        lemma_pow2_shift128(k);
    }
}

/// What `compute_ipv6_subnet` must decide about its input.
pub open spec fn spec_ipv6_request(s: Seq<char>) -> Result<(u128, u32), AddrError> {
    let t = spec_trim(s);
    let i = first_index_of(t, '/');
    if i < 0 {
        Err(AddrError::InvalidFormat)
    } else {
        match spec_parse_ipv6(t.take(i)) {
            None => Err(AddrError::InvalidAddress),
            Some(ip) => match spec_parse_uint(t.skip(i + 1), 0xffff_ffff) {
                None => Err(AddrError::InvalidPrefix),
                Some(p) => if p > 128 {
                    Err(AddrError::InvalidPrefix)
                } else {
                    Ok((ip, p as u32))
                },
            },
        }
    }
}

/// Every field equation of the IPv6 derivation.
pub open spec fn subnet6_result_matches(r: Ipv6SubnetResult, ip: u128, p: u32) -> bool {
    let net = spec_network6(ip, p);
    let bc = spec_broadcast6(ip, p);
    let total = pow2((128 - p) as nat);
    &&& r.ipv6_address@ == spec_ipv6_compressed(ip) + seq!['/'] + spec_digits(p as nat)
    &&& r.full_ipv6_address@ == spec_ipv6_full(ip)
    &&& r.total_ip_addresses@ == spec_thousands(spec_digits(total))
    &&& r.network_address@ == spec_ipv6_compressed(net)
    &&& r.network_address_full@ == spec_ipv6_full(net)
    &&& r.ip_range@ == spec_ipv6_full(net) + " - "@ + spec_ipv6_full(bc)
    &&& r.addresses@.len() == if total > 999 {
        999int
    } else {
        total as int
    }
    &&& forall|i: int|
        0 <= i < r.addresses@.len() ==> (#[trigger] r.addresses@[i])@ == spec_ipv6_full(
            (net + i) as u128,
        )
}

/// Derives the IPv6 subnet named by `address/prefix`: boundaries, total
/// count with thousands separators, full and compressed renderings, and a
/// preview of at most 999 concrete addresses.
pub fn compute_ipv6_subnet(input: &str) -> (r: Result<Ipv6SubnetResult, AddrError>)
    ensures
        match r {
            Ok(out) => {
                &&& spec_ipv6_request(input@) is Ok
                &&& subnet6_result_matches(
                    out,
                    spec_ipv6_request(input@)->Ok_0.0,
                    spec_ipv6_request(input@)->Ok_0.1,
                )
            },
            Err(e) => spec_ipv6_request(input@) == Err::<(u128, u32), AddrError>(e),
        },
{
    let chars = str_to_chars(input);
    let t = trim_chars(&chars);
    let slash = match find_char(&t, '/') {
        Some(i) => i,
        None => {
            return Err(AddrError::InvalidFormat);
        },
    };
    assert(slash < t.len());
    let ip_part = chars_range(&t, 0, slash);
    let cidr_part = chars_range(&t, slash + 1, t.len());
    assert(ip_part@ =~= spec_trim(input@).take(first_index_of(spec_trim(input@), '/')));
    assert(cidr_part@ =~= spec_trim(input@).skip(first_index_of(spec_trim(input@), '/') + 1));
    let ip = match parse_ipv6(&ip_part) {
        Some(x) => x,
        None => {
            return Err(AddrError::InvalidAddress);
        },
    };
    let cidr64 = match parse_uint(&cidr_part, 0xffff_ffff) {
        Some(x) => x,
        None => {
            return Err(AddrError::InvalidPrefix);
        },
    };
    if cidr64 > 128 {
        return Err(AddrError::InvalidPrefix);
    }
    let cidr = cidr64 as u32;
    proof {
        assert(spec_ipv6_request(input@) == Ok::<(u128, u32), AddrError>((ip, cidr)));
        lemma_subnet6_bounds(ip, cidr);
    }
    let mask: u128 = if cidr == 0 {
        0
    } else {
        0xffff_ffff_ffff_ffff_ffff_ffff_ffff_ffffu128 << (128 - cidr)
    };
    let network = ip & mask;
    let broadcast = network | !mask;
    let host_bits = 128 - cidr;
    let total_digits = pow2_dec_digits(host_bits);
    let total_grouped = group_thousands(&total_digits);
    let mut addr_text = format_compressed_ipv6(ip);
    addr_text.push('/');
    let mut cd = u64_to_dec(cidr as u64);
    addr_text.append(&mut cd);
    proof {
        assert(addr_text@ =~= spec_ipv6_compressed(ip) + seq!['/'] + spec_digits(cidr as nat));
    }
    let mut range_text = format_full_ipv6(network);
    let mut mid = str_to_chars(" - ");
    range_text.append(&mut mid);
    let mut bc_text = format_full_ipv6(broadcast);
    range_text.append(&mut bc_text);
    proof {
        assert(range_text@ =~= spec_ipv6_full(spec_network6(ip, cidr)) + " - "@ + spec_ipv6_full(
            spec_broadcast6(ip, cidr),
        ));
    }
    let display_count: u64 = if host_bits >= 10 {
        proof {
            lemma_pow2_mono(10, host_bits as nat);
            crate::arith::lemma_pow2_shift64(10);
            assert((1u64 << 10u32) == 1024) by (bit_vector);
        }
        999
    } else {
        let total_small = pow2_u64(host_bits);
        if total_small > 999 {
            999
        } else {
            total_small
        }
    };
    proof {
        assert(display_count == if pow2((128 - cidr) as nat) > 999 {
            999int
        } else {
            pow2((128 - cidr) as nat) as int
        });
        assert(display_count as nat <= pow2((128 - cidr) as nat));
    }
    let mut addresses: Vec<String> = Vec::new();
    let mut i: u64 = 0;
    while i < display_count
        invariant
            0 <= i <= display_count,
            display_count as nat <= pow2((128 - cidr) as nat),
            cidr <= 128,
            network == spec_network6(ip, cidr),
            broadcast == spec_broadcast6(ip, cidr),
            broadcast - network + 1 == pow2((128 - cidr) as nat),
            addresses@.len() == i,
            forall|j: int|
                0 <= j < i ==> (#[trigger] addresses@[j])@ == spec_ipv6_full((network + j) as u128),
        decreases display_count - i,
    {
        assert(network + i <= broadcast);
        let a = format_full_ipv6(network + (i as u128));
        addresses.push(chars_to_string(&a));
        i = i + 1;
    }
    let out = Ipv6SubnetResult {
        ipv6_address: chars_to_string(&addr_text),
        full_ipv6_address: chars_to_string(&format_full_ipv6(ip)),
        total_ip_addresses: chars_to_string(&total_grouped),
        network_address: chars_to_string(&format_compressed_ipv6(network)),
        network_address_full: chars_to_string(&format_full_ipv6(network)),
        ip_range: chars_to_string(&range_text),
        addresses,
    };
    proof {
        assert(subnet6_result_matches(out, ip, cidr));
    }
    Ok(out)
}

} // verus!
