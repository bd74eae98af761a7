//! Derivation of every representation of one IPv4 subnet from an
//! `address/prefix` expression.

use vstd::prelude::*;

use crate::addr4::{
    format_ipv4, lemma_subnet_bounds, mask_for_prefix, parse_ipv4, spec_broadcast, spec_mask32,
    spec_network, spec_octet, spec_parse_ipv4, spec_ipv4_text,
};
use crate::arith::{
    bits_fixed, group_thousands, hex_fixed, pow2, pow2_u64, spec_bits, spec_digits, spec_hex,
    spec_thousands, u64_to_dec, lemma_pow2_shift32, };
use crate::error::AddrError;
use crate::text::{
    chars_range, chars_to_string, find_char, first_index_of, spec_parse_uint, spec_trim,
    str_to_chars, trim_chars,
};

verus! {

/// Every representation derived for one subnet.
#[derive(Debug)]
pub struct SubnetResult {
    pub ip_address: String,
    pub network_address: String,
    pub broadcast_address: String,
    pub subnet_mask: String,
    pub wildcard_mask: String,
    pub binary_subnet_mask: String,
    pub usable_range: String,
    pub total_hosts: String,
    pub usable_hosts: String,
    pub ip_class: String,
    pub cidr_notation: String,
    pub ip_type: String,
    pub short_notation: String,
    pub binary_id: String,
    pub integer_id: String,
    pub hex_id: String,
    pub in_addr_arpa: String,
    pub ipv4_mapped_address: String,
    pub six_to_four_prefix: String,
}

/// One sibling network of the requested block.
#[derive(Debug)]
pub struct NetworkEntry {
    pub network: String,
    pub range: String,
    pub broadcast: String,
}

/// The subnet derivation together with its sibling networks.
#[derive(Debug)]
pub struct SubnetComputation {
    pub result: SubnetResult,
    pub related_networks: Vec<NetworkEntry>,
}

/// The wildcard mask: the bitwise complement of the subnet mask.
pub open spec fn spec_wildcard32(prefix: u32) -> u32 {
    !spec_mask32(prefix)
}

/// How many addresses the block holds.
pub open spec fn spec_total_hosts(prefix: u32) -> nat
    recommends
        prefix <= 32,
{
    pow2((32 - prefix) as nat)
}

/// How many of them are usable: all for `/31`, the single one for `/32`,
/// and all but network and broadcast otherwise.
pub open spec fn spec_usable_count(prefix: u32) -> nat
    recommends
        prefix <= 32,
{
    if prefix == 32 {
        1nat
    } else if prefix == 31 {
        2nat
    } else {
        (spec_total_hosts(prefix) - 2) as nat
    }
}

/// The first usable address of the block containing `ip`.
pub open spec fn spec_first_usable(ip: u32, prefix: u32) -> u32 {
    if prefix == 32 || prefix == 31 {
        spec_network(ip, prefix)
    } else {
        (spec_network(ip, prefix) + 1) as u32
    }
}

/// The last usable address of the block containing `ip`.
pub open spec fn spec_last_usable(ip: u32, prefix: u32) -> u32 {
    if prefix == 32 {
        spec_network(ip, prefix)
    } else if prefix == 31 {
        spec_broadcast(ip, prefix)
    } else {
        (spec_broadcast(ip, prefix) - 1) as u32
    }
}

/// The usable-range display text: a single address for `/32`, otherwise
/// `first - last`.
pub open spec fn spec_usable_range_text(ip: u32, prefix: u32) -> Seq<char> {
    if prefix == 32 {
        spec_ipv4_text(spec_first_usable(ip, prefix))
    } else {
        spec_ipv4_text(spec_first_usable(ip, prefix)) + " - "@ + spec_ipv4_text(
            spec_last_usable(ip, prefix),
        )
    }
}

/// The classful class of an address, by its first octet.
pub open spec fn spec_class_char(ip: u32) -> char {
    let o = spec_octet(ip, 0);
    if o <= 127 {
        'A'
    } else if o <= 191 {
        'B'
    } else if o <= 223 {
        'C'
    } else if o <= 239 {
        'D'
    } else {
        'E'
    }
}

/// The natural prefix boundary of a classful class, for classes A to C.
pub open spec fn spec_class_boundary(class: Seq<char>) -> Option<u32> {
    if class =~= seq!['A'] {
        Some(8u32)
    } else if class =~= seq!['B'] {
        Some(16u32)
    } else if class =~= seq!['C'] {
        Some(24u32)
    } else {
        None
    }
}

/// The address type, first match in precedence order.
pub open spec fn spec_type_text(ip: u32, class: Seq<char>) -> Seq<char> {
    let a = spec_octet(ip, 0);
    let b = spec_octet(ip, 1);
    if a == 10 || (a == 172 && 16 <= b <= 31) || (a == 192 && b == 168) {
        "Private"@
    } else if a == 169 && b == 254 {
        "Link-local"@
    } else if a == 127 {
        "Loopback"@
    } else if a == 100 && 64 <= b <= 127 {
        "Carrier-grade NAT"@
    } else if 224 <= a <= 239 {
        "Multicast"@
    } else if a >= 240 {
        "Reserved"@
    } else if class =~= seq!['A'] && a == 0 {
        "Special"@
    } else {
        "Public"@
    }
}

/// The 32-bit binary rendering grouped into octets with dots.
pub open spec fn spec_binary_dotted(v: u32) -> Seq<char> {
    let b = spec_bits(v as nat, 32);
    b.subrange(0, 8) + seq!['.'] + b.subrange(8, 16) + seq!['.'] + b.subrange(16, 24) + seq!['.']
        + b.subrange(24, 32)
}

/// The reverse-DNS name of an address.
pub open spec fn spec_in_addr_arpa(ip: u32) -> Seq<char> {
    spec_digits(spec_octet(ip, 3) as nat) + seq!['.'] + spec_digits(spec_octet(ip, 2) as nat)
        + seq!['.'] + spec_digits(spec_octet(ip, 1) as nat) + seq!['.'] + spec_digits(
        spec_octet(ip, 0) as nat,
    ) + ".in-addr.arpa"@
}

/// The high and low 16-bit halves of an address.
pub open spec fn spec_half_hi(ip: u32) -> u32 {
    (ip >> 16u32) & 0xffff
}

pub open spec fn spec_half_lo(ip: u32) -> u32 {
    ip & 0xffff
}

/// The IPv4-mapped IPv6 form of an address.
pub open spec fn spec_ipv4_mapped(ip: u32) -> Seq<char> {
    "::ffff:"@ + spec_hex(spec_half_hi(ip) as nat, 4) + seq!['.'] + spec_hex(
        spec_half_lo(ip) as nat,
        4,
    )
}

/// The 6to4 prefix derived from an address.
pub open spec fn spec_six_to_four(ip: u32) -> Seq<char> {
    "2002:"@ + spec_hex(spec_half_hi(ip) as nat, 4) + seq![':'] + spec_hex(
        spec_half_lo(ip) as nat,
        4,
    ) + "::/48"@
}

/// What `compute_subnet` must decide about its input: the parsed address
/// and prefix, or the first applicable error.
pub open spec fn spec_subnet_request(s: Seq<char>) -> Result<(u32, u32), AddrError> {
    let t = spec_trim(s);
    let i = first_index_of(t, '/');
    if i < 0 {
        Err(AddrError::InvalidFormat)
    } else {
        match spec_parse_ipv4(t.take(i)) {
            None => Err(AddrError::InvalidAddress),
            Some(ip) => match spec_parse_uint(t.skip(i + 1), 0xffff_ffff) {
                None => Err(AddrError::InvalidPrefix),
                Some(p) => if p > 32 {
                    Err(AddrError::InvalidPrefix)
                } else {
                    Ok((ip, p as u32))
                },
            },
        }
    }
}

/// Every field equation of the derivation result.
pub open spec fn subnet_result_matches(r: SubnetResult, ip: u32, p: u32) -> bool {
    &&& r.ip_address@ == spec_ipv4_text(ip)
    &&& r.network_address@ == spec_ipv4_text(spec_network(ip, p))
    &&& r.broadcast_address@ == spec_ipv4_text(spec_broadcast(ip, p))
    &&& r.subnet_mask@ == spec_ipv4_text(spec_mask32(p))
    &&& r.wildcard_mask@ == spec_ipv4_text(spec_wildcard32(p))
    &&& r.binary_subnet_mask@ == spec_binary_dotted(spec_mask32(p))
    &&& r.usable_range@ == spec_usable_range_text(ip, p)
    &&& r.total_hosts@ == spec_thousands(spec_digits(spec_total_hosts(p)))
    &&& r.usable_hosts@ == spec_thousands(spec_digits(spec_usable_count(p)))
    &&& r.ip_class@ == seq![spec_class_char(ip)]
    &&& r.cidr_notation@ == seq!['/'] + spec_digits(p as nat)
    &&& r.ip_type@ == spec_type_text(ip, seq![spec_class_char(ip)])
    &&& r.short_notation@ == spec_ipv4_text(ip) + seq!['/'] + spec_digits(p as nat)
    &&& r.binary_id@ == spec_bits(ip as nat, 32)
    &&& r.integer_id@ == spec_digits(ip as nat)
    &&& r.hex_id@ == "0x"@ + spec_hex(ip as nat, 8)
    &&& r.in_addr_arpa@ == spec_in_addr_arpa(ip)
    &&& r.ipv4_mapped_address@ == spec_ipv4_mapped(ip)
    &&& r.six_to_four_prefix@ == spec_six_to_four(ip)
}

/// Saturating 32-bit addition of mathematical values.
pub open spec fn sat_add32(a: nat, b: nat) -> u32 {
    if a + b > 0xffff_ffff {
        0xffff_ffffu32
    } else {
        (a + b) as u32
    }
}

/// The number of sibling networks enumerated: one block per sibling of the
/// same size inside the class's natural block, capped at 256.
pub open spec fn spec_related_count(p: u32, boundary: u32) -> nat
    recommends
        boundary <= p <= 32,
{
    if p - boundary >= 8 {
        256nat
    } else {
        pow2((p - boundary) as nat)
    }
}

/// The network address of the `i`-th sibling.
pub open spec fn spec_rel_network(base: u32, step: nat, i: int) -> u32 {
    sat_add32(base as nat, (step * i) as nat)
}

/// The broadcast address of the `i`-th sibling.
pub open spec fn spec_rel_broadcast(base: u32, step: nat, i: int) -> u32 {
    sat_add32(spec_rel_network(base, step, i) as nat, (step - 1) as nat)
}

/// The display strings of one sibling entry.
pub open spec fn related_entry_matches(e: NetworkEntry, base: u32, step: nat, p: u32, i: int) -> bool {
    let net = spec_rel_network(base, step, i);
    let bc = spec_rel_broadcast(base, step, i);
    let first = if p == 32 || p == 31 {
        net
    } else {
        sat_add32(net as nat, 1)
    };
    let last = if p == 32 {
        net
    } else if p == 31 {
        bc
    } else {
        if bc >= 1 {
            (bc - 1) as u32
        } else {
            0u32
        }
    };
    &&& e.network@ == spec_ipv4_text(net)
    &&& e.broadcast@ == spec_ipv4_text(bc)
    &&& e.range@ == if p == 32 {
        spec_ipv4_text(first)
    } else {
        spec_ipv4_text(first) + " - "@ + spec_ipv4_text(last)
    }
}

/// The whole sibling list: empty for classes D and E and for prefixes above
/// the class boundary, else one entry per sibling.
pub open spec fn related_networks_match(v: Seq<NetworkEntry>, ip: u32, p: u32) -> bool {
    match spec_class_boundary(seq![spec_class_char(ip)]) {
        None => v.len() == 0,
        Some(boundary) => {
            if p < boundary {
                v.len() == 0
            } else {
                let base = ip & spec_mask32(boundary);
                let step = pow2((32 - p) as nat);
                &&& v.len() == spec_related_count(p, boundary)
                &&& forall|i: int|
                    0 <= i < v.len() ==> related_entry_matches(#[trigger] v[i], base, step, p, i)
            }
        },
    }
}

/// The classful class letter, as text.
pub fn derive_class(ip: u32) -> (r: String)
    ensures
        r@ == seq![spec_class_char(ip)],
{
    let first_octet = ip >> 24u32;
    let c: char = if first_octet <= 127 {
        'A'
    } else if first_octet <= 191 {
        'B'
    } else if first_octet <= 223 {
        'C'
    } else if first_octet <= 239 {
        'D'
    } else {
        'E'
    };
    let mut r = String::new();
    r.push(c);
    proof {
        assert(r@ =~= seq![spec_class_char(ip)]);
    }
    r
}

/// The class's natural boundary prefix, for classes that have one.
pub fn class_boundary(ip_class: &str) -> (r: Option<u32>)
    ensures
        r == spec_class_boundary(ip_class@),
{
    if ip_class.unicode_len() != 1 {
        proof {
            assert(ip_class@.len() != 1);
        }
        return None;
    }
    let c = ip_class.get_char(0);
    proof {
        assert(ip_class@ =~= seq![ip_class@[0]]);
    }
    if c == 'A' {
        Some(8)
    } else if c == 'B' {
        Some(16)
    } else if c == 'C' {
        Some(24)
    } else {
        proof {
            assert(!(ip_class@ =~= seq!['A']));
            assert(!(ip_class@ =~= seq!['B']));
            assert(!(ip_class@ =~= seq!['C']));
        }
        None
    }
}

/// The address type, in the documented precedence order.
pub fn derive_type(ip: u32, ip_class: &str) -> (r: String)
    ensures
        r@ == spec_type_text(ip, ip_class@),
{
    let first = ip >> 24u32;
    let second = (ip >> 16u32) & 0xff;
    let is_private = first == 10 || (first == 172 && 16 <= second && second <= 31) || (first == 192
        && second == 168);
    let class_is_a = ip_class.unicode_len() == 1 && ip_class.get_char(0) == 'A';
    proof {
        if class_is_a {
            assert(ip_class@ =~= seq!['A']);
        } else if ip_class@.len() == 1 {
            assert(ip_class@ =~= seq![ip_class@[0]]);
        }
    }
    if is_private {
        String::from_str("Private")
    } else if first == 169 && second == 254 {
        String::from_str("Link-local")
    } else if first == 127 {
        String::from_str("Loopback")
    } else if first == 100 && 64 <= second && second <= 127 {
        String::from_str("Carrier-grade NAT")
    } else if 224 <= first && first <= 239 {
        String::from_str("Multicast")
    } else if first >= 240 {
        String::from_str("Reserved")
    } else if class_is_a && first == 0 {
        String::from_str("Special")
    } else {
        String::from_str("Public")
    }
}

/// The 32-bit binary text of a value, grouped into octets when asked.
pub fn format_binary(value: u32, with_dots: bool) -> (r: String)
    ensures
        !with_dots ==> r@ == spec_bits(value as nat, 32),
        with_dots ==> r@ == spec_binary_dotted(value),
{
    let bits = bits_fixed(value as u64, 32);
    if !with_dots {
        chars_to_string(&bits)
    } else {
        let mut out: Vec<char> = Vec::new();
        let mut g0 = chars_range(&bits, 0, 8);
        let mut g1 = chars_range(&bits, 8, 16);
        let mut g2 = chars_range(&bits, 16, 24);
        let mut g3 = chars_range(&bits, 24, 32);
        out.append(&mut g0);
        out.push('.');
        out.append(&mut g1);
        out.push('.');
        out.append(&mut g2);
        out.push('.');
        out.append(&mut g3);
        proof {
            assert(out@ =~= spec_binary_dotted(value));
        }
        chars_to_string(&out)
    }
}

/// The reverse-DNS name of an address.
pub fn build_in_addr_arpa(ip: u32) -> (r: String)
    ensures
        r@ == spec_in_addr_arpa(ip),
{
    proof {
        crate::addr4::lemma_octets(ip);
    }
    let mut v = u64_to_dec((ip & 0xff) as u64);
    v.push('.');
    let mut p2 = u64_to_dec(((ip >> 8u32) & 0xff) as u64);
    v.append(&mut p2);
    v.push('.');
    let mut p1 = u64_to_dec(((ip >> 16u32) & 0xff) as u64);
    v.append(&mut p1);
    v.push('.');
    let mut p0 = u64_to_dec((ip >> 24u32) as u64);
    v.append(&mut p0);
    let mut suffix = str_to_chars(".in-addr.arpa");
    v.append(&mut suffix);
    proof {
        assert(v@ =~= spec_in_addr_arpa(ip));
    }
    chars_to_string(&v)
}

/// The IPv4-mapped IPv6 form.
pub fn build_ipv4_mapped(ip: u32) -> (r: String)
    ensures
        r@ == spec_ipv4_mapped(ip),
{
    proof {
        lemma_halves(ip);
    }
    let mut v = str_to_chars("::ffff:");
    let mut hi = hex_fixed(((ip >> 16u32) & 0xffff) as u64, 4);
    v.append(&mut hi);
    v.push('.');
    let mut lo = hex_fixed((ip & 0xffff) as u64, 4);
    v.append(&mut lo);
    proof {
        assert(v@ =~= spec_ipv4_mapped(ip));
    }
    chars_to_string(&v)
}

/// The 6to4 prefix.
pub fn build_six_to_four_prefix(ip: u32) -> (r: String)
    ensures
        r@ == spec_six_to_four(ip),
{
    proof {
        lemma_halves(ip);
    }
    let mut v = str_to_chars("2002:");
    let mut hi = hex_fixed(((ip >> 16u32) & 0xffff) as u64, 4);
    v.append(&mut hi);
    v.push(':');
    let mut lo = hex_fixed((ip & 0xffff) as u64, 4);
    v.append(&mut lo);
    let mut suffix = str_to_chars("::/48");
    v.append(&mut suffix);
    proof {
        assert(v@ =~= spec_six_to_four(ip));
    }
    chars_to_string(&v)
}

/// Both 16-bit halves of a word are bounded by it.
proof fn lemma_halves(ip: u32)
    ensures
        spec_half_hi(ip) <= 0xffff,
        spec_half_lo(ip) <= 0xffff,
{
    assert(((ip >> 16u32) & 0xffff) <= 0xffff && (ip & 0xffff) <= 0xffff) by (bit_vector);
}

/// The sibling networks of the requested block, within its class's natural
/// block, capped at 256 entries.
pub fn build_related_networks(ip: u32, cidr: u32, ip_class: &str) -> (r: Vec<NetworkEntry>)
    requires
        cidr <= 32,
    ensures
        ip_class@ == seq![spec_class_char(ip)] ==> related_networks_match(r@, ip, cidr),
{
    let boundary = match class_boundary(ip_class) {
        Some(b) => b,
        None => {
            let r: Vec<NetworkEntry> = Vec::new();
            return r;
        },
    };
    if cidr < boundary {
        let r: Vec<NetworkEntry> = Vec::new();
        return r;
    }
    assert(boundary == 8 || boundary == 16 || boundary == 24);
    let class_mask = mask_for_prefix(boundary);
    let base_network = ip & class_mask;
    let diff = cidr - boundary;
    let count: u32 = if diff >= 8 {
        256
    } else {
        proof {
            lemma_pow2_shift32(diff);
        }
        1u32 << diff
    };
    proof {
        if diff < 8 {
            crate::arith::lemma_pow2_shift32(diff);
            assert(1 <= (1u32 << diff) <= 256) by (bit_vector)
                requires
                    diff < 8,
            ;
        }
        assert(count == spec_related_count(cidr, boundary));
        assert(1 <= count <= 256);
    }
    let step64 = pow2_u64(32 - cidr);
    proof {
        crate::arith::lemma_pow2_shift64((32 - cidr) as u32);
        assert((1u64 << ((32 - cidr) as u32)) <= 0x100_0000 && (1u64 << ((32 - cidr) as u32)) >= 1)
            by (bit_vector)
            requires
                8 <= cidr <= 32,
        ;
    }
    let step: u32 = step64 as u32;
    let ghost stepn = pow2((32 - cidr) as nat);
    let mut r: Vec<NetworkEntry> = Vec::new();
    let mut i: u32 = 0;
    while i < count
        invariant
            i <= count <= 256,
            1 <= step <= 0x100_0000,
            step == stepn,
            cidr <= 32,
            r@.len() == i as int,
            forall|j: int|
                0 <= j < i as int ==> related_entry_matches(
                    #[trigger] r@[j],
                    base_network,
                    stepn,
                    cidr,
                    j,
                ),
        decreases count - i,
    {
        proof {
            assert((step as u64) * (i as u64) <= 0x100_0000u64 * 256u64) by (nonlinear_arith)
                requires
                    step <= 0x100_0000 && i < 256,
            ;
        }
        let offset64: u64 = (step as u64) * (i as u64);
        assert(offset64 <= 0x100_0000 * 256);
        let network_int: u32 = if offset64 > 0xffff_ffffu64 {
            u32::MAX
        } else {
            base_network.saturating_add(offset64 as u32)
        };
        assert(network_int == spec_rel_network(base_network, stepn, i as int));
        let broadcast_int: u32 = network_int.saturating_add(step - 1);
        assert(broadcast_int == spec_rel_broadcast(base_network, stepn, i as int));
        let (first_host, last_host): (u32, u32) = if cidr == 32 {
            (network_int, network_int)
        } else if cidr == 31 {
            (network_int, broadcast_int)
        } else {
            (
                network_int.saturating_add(1),
                if broadcast_int >= 1 {
                    broadcast_int - 1
                } else {
                    0
                },
            )
        };
        let range: String = if cidr == 32 {
            chars_to_string(&format_ipv4(first_host))
        } else {
            let mut v = format_ipv4(first_host);
            let mut mid = str_to_chars(" - ");
            v.append(&mut mid);
            let mut lastv = format_ipv4(last_host);
            v.append(&mut lastv);
            chars_to_string(&v)
        };
        let entry = NetworkEntry {
            network: chars_to_string(&format_ipv4(network_int)),
            range,
            broadcast: chars_to_string(&format_ipv4(broadcast_int)),
        };
        proof {
            assert(related_entry_matches(entry, base_network, stepn, cidr, i as int));
        }
        r.push(entry);
        i = i + 1;
    }
    proof {
        assert(ip_class@ == seq![spec_class_char(ip)] ==> related_networks_match(r@, ip, cidr));
    }
    r
}

/// Derives every representation of the subnet `address/prefix` names.
///
/// The input is trimmed; it must contain a `/`, a well-formed dotted-quad
/// address, and a prefix of at most 32, else the matching error is
/// returned.
pub fn compute_subnet(input: &str) -> (r: Result<SubnetComputation, AddrError>)
    ensures
        match r {
            Ok(out) => {
                &&& spec_subnet_request(input@) is Ok
                &&& subnet_result_matches(
                    out.result,
                    spec_subnet_request(input@)->Ok_0.0,
                    spec_subnet_request(input@)->Ok_0.1,
                )
                &&& related_networks_match(
                    out.related_networks@,
                    spec_subnet_request(input@)->Ok_0.0,
                    spec_subnet_request(input@)->Ok_0.1,
                )
            },
            Err(e) => spec_subnet_request(input@) == Err::<(u32, u32), AddrError>(e),
        },
{
    let chars = str_to_chars(input);
    let t = trim_chars(&chars);
    let slash = match find_char(&t, '/') {
        Some(i) => i,
        None => {
            return Err(AddrError::InvalidFormat);
        },
    };
    assert(slash < t.len());
    let ip_part = chars_range(&t, 0, slash);
    let cidr_part = chars_range(&t, slash + 1, t.len());
    assert(ip_part@ =~= spec_trim(input@).take(first_index_of(spec_trim(input@), '/')));
    assert(cidr_part@ =~= spec_trim(input@).skip(first_index_of(spec_trim(input@), '/') + 1));
    let ip = match parse_ipv4(&ip_part) {
        Some(x) => x,
        None => {
            return Err(AddrError::InvalidAddress);
        },
    };
    let cidr64 = match crate::text::parse_uint(&cidr_part, 0xffff_ffff) {
        Some(x) => x,
        None => {
            return Err(AddrError::InvalidPrefix);
        },
    };
    if cidr64 > 32 {
        return Err(AddrError::InvalidPrefix);
    }
    let cidr = cidr64 as u32;
    proof {
        assert(spec_subnet_request(input@) == Ok::<(u32, u32), AddrError>((ip, cidr)));
        lemma_subnet_bounds(ip, cidr);
    }
    let mask = mask_for_prefix(cidr);
    let wildcard = !mask;
    let network = ip & mask;
    let broadcast = network | wildcard;
    let total_hosts_value: u64 = pow2_u64(32 - cidr);
    let (usable_hosts_value, first_usable, last_usable): (u64, u32, u32) = if cidr == 32 {
        (1u64, network, network)
    } else if cidr == 31 {
        (2u64, network, broadcast)
    } else {
        proof {
            crate::arith::lemma_pow2_mono(2, (32 - cidr) as nat);
            assert(pow2(0) == 1);
            assert(pow2(1) == 2);
            assert(pow2(2) == 4);
        }
        assert(total_hosts_value >= 4 && broadcast >= network + 3);
        (total_hosts_value - 2, network + 1, broadcast - 1)
    };
    let usable_range: String = if cidr == 32 {
        chars_to_string(&format_ipv4(first_usable))
    } else {
        let mut v = format_ipv4(first_usable);
        let mut mid = str_to_chars(" - ");
        v.append(&mut mid);
        let mut lastv = format_ipv4(last_usable);
        v.append(&mut lastv);
        proof {
            assert(v@ =~= spec_usable_range_text(ip, cidr));
        }
        chars_to_string(&v)
    };
    let ip_class = derive_class(ip);
    let ip_type = derive_type(ip, ip_class.as_str());
    let cidr_digits = u64_to_dec(cidr as u64);
    let mut cidr_notation_chars: Vec<char> = Vec::new();
    cidr_notation_chars.push('/');
    let mut cd = crate::arith::clone_chars(&cidr_digits);
    cidr_notation_chars.append(&mut cd);
    proof {
        assert(cidr_notation_chars@ =~= seq!['/'] + spec_digits(cidr as nat));
    }
    let mut short_chars = format_ipv4(ip);
    short_chars.push('/');
    let mut cd2 = crate::arith::clone_chars(&cidr_digits);
    short_chars.append(&mut cd2);
    proof {
        assert(short_chars@ =~= spec_ipv4_text(ip) + seq!['/'] + spec_digits(cidr as nat));
    }
    let mut hex_chars = str_to_chars("0x");
    let mut hx = hex_fixed(ip as u64, 8);
    hex_chars.append(&mut hx);
    proof {
        assert(hex_chars@ =~= "0x"@ + spec_hex(ip as nat, 8));
    }
    let total_grouped = group_thousands(&u64_to_dec(total_hosts_value));
    let usable_grouped = group_thousands(&u64_to_dec(usable_hosts_value));
    let result = SubnetResult {
        ip_address: chars_to_string(&format_ipv4(ip)),
        network_address: chars_to_string(&format_ipv4(network)),
        broadcast_address: chars_to_string(&format_ipv4(broadcast)),
        subnet_mask: chars_to_string(&format_ipv4(mask)),
        wildcard_mask: chars_to_string(&format_ipv4(wildcard)),
        binary_subnet_mask: format_binary(mask, true),
        usable_range,
        total_hosts: chars_to_string(&total_grouped),
        usable_hosts: chars_to_string(&usable_grouped),
        ip_class,
        cidr_notation: chars_to_string(&cidr_notation_chars),
        ip_type,
        short_notation: chars_to_string(&short_chars),
        binary_id: format_binary(ip, false),
        integer_id: chars_to_string(&u64_to_dec(ip as u64)),
        hex_id: chars_to_string(&hex_chars),
        in_addr_arpa: build_in_addr_arpa(ip),
        ipv4_mapped_address: build_ipv4_mapped(ip),
        six_to_four_prefix: build_six_to_four_prefix(ip),
    };
    let related_networks = build_related_networks(ip, cidr, result.ip_class.as_str());
    Ok(SubnetComputation { result, related_networks })
}

} // verus!
