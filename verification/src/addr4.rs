//! IPv4 addresses as 32-bit words: dotted-decimal text, masks and block
//! boundaries.

use vstd::prelude::*;

use crate::arith::{
    digit_value, digits_value, is_digit, pow2, spec_digits, u64_to_dec, lemma_pow2_shift64,
};
use crate::text::{all_digits, split_on, split_char};

verus! {

/// The subnet mask for a prefix length: the `prefix` highest bits set.
pub open spec fn spec_mask32(prefix: u32) -> u32
    recommends
        prefix <= 32,
{
    if prefix == 0 {
        0u32
    } else {
        (0xffff_ffffu32 << ((32 - prefix) as u32))
    }
}

/// The lowest address of the block containing `ip`.
pub open spec fn spec_network(ip: u32, prefix: u32) -> u32 {
    ip & spec_mask32(prefix)
}

/// The highest address of the block containing `ip`.
pub open spec fn spec_broadcast(ip: u32, prefix: u32) -> u32 {
    spec_network(ip, prefix) | !spec_mask32(prefix)
}

/// The subnet mask, computed as the specification states it.
pub fn mask_for_prefix(prefix: u32) -> (r: u32)
    requires
        prefix <= 32,
    ensures
        r == spec_mask32(prefix),
{
    if prefix == 0 {
        0
    } else {
        0xffff_ffffu32 << (32 - prefix)
    }
}

/// The block invariants every valid `(address, prefix)` pair enjoys: the
/// network is mask-aligned, the broadcast is network plus wildcard, network
/// never exceeds broadcast, and the block holds exactly `2^(32 - prefix)`
/// addresses.
pub proof fn lemma_subnet_bounds(ip: u32, prefix: u32)
    requires
        prefix <= 32,
    ensures
        spec_network(ip, prefix) & spec_mask32(prefix) == spec_network(ip, prefix),
        spec_broadcast(ip, prefix) == spec_network(ip, prefix) | !spec_mask32(prefix),
        spec_network(ip, prefix) <= ip,
        spec_network(ip, prefix) <= spec_broadcast(ip, prefix),
        spec_broadcast(ip, prefix) - spec_network(ip, prefix) + 1 == pow2((32 - prefix) as nat),
{
    let m = spec_mask32(prefix);
    let n = spec_network(ip, prefix);
    let b = spec_broadcast(ip, prefix);
    let k = (32 - prefix) as u32;
    assert((ip & m) & m == (ip & m) && (ip & m) <= ip && (ip & m) <= ((ip & m) | !m) && (((ip & m)
        | !m) + 1 - (ip & m)) == (1u64 << k)) by (bit_vector)
        requires
            prefix <= 32 && k == 32 - prefix && m == spec_mask32(prefix),
    ;
    lemma_pow2_shift64(k);
}

/// One octet of an address, counting from the most significant.
pub open spec fn spec_octet(ip: u32, k: int) -> u32 {
    if k == 0 {
        ip >> 24u32
    } else if k == 1 {
        (ip >> 16u32) & 0xff
    } else if k == 2 {
        (ip >> 8u32) & 0xff
    } else {
        ip & 0xff
    }
}

/// The dotted-decimal text of an address.
pub open spec fn spec_ipv4_text(ip: u32) -> Seq<char> {
    spec_digits(spec_octet(ip, 0) as nat) + seq!['.'] + spec_digits(spec_octet(ip, 1) as nat)
        + seq!['.'] + spec_digits(spec_octet(ip, 2) as nat) + seq!['.'] + spec_digits(
        spec_octet(ip, 3) as nat,
    )
}

/// Octets are bytes, and they compose back into the address.
pub proof fn lemma_octets(ip: u32)
    ensures
        spec_octet(ip, 0) <= 255,
        spec_octet(ip, 1) <= 255,
        spec_octet(ip, 2) <= 255,
        spec_octet(ip, 3) <= 255,
        ip == spec_octet(ip, 0) * 0x100_0000 + spec_octet(ip, 1) * 0x1_0000 + spec_octet(ip, 2)
            * 0x100 + spec_octet(ip, 3),
{
    assert((ip >> 24u32) <= 255 && ((ip >> 16u32) & 0xff) <= 255 && ((ip >> 8u32) & 0xff) <= 255
        && (ip & 0xff) <= 255 && ip == (ip >> 24u32) * 0x100_0000 + ((ip >> 16u32) & 0xff)
        * 0x1_0000 + ((ip >> 8u32) & 0xff) * 0x100 + (ip & 0xff)) by (bit_vector);
}

/// Four byte values compose into an address whose octets they are.
pub proof fn lemma_octets_compose(a: u32, b: u32, c: u32, d: u32)
    requires
        a <= 255,
        b <= 255,
        c <= 255,
        d <= 255,
    ensures
        a * 0x100_0000 + b * 0x1_0000 + c * 0x100 + d <= 0xffff_ffff,
        spec_octet((a * 0x100_0000 + b * 0x1_0000 + c * 0x100 + d) as u32, 0) == a,
        spec_octet((a * 0x100_0000 + b * 0x1_0000 + c * 0x100 + d) as u32, 1) == b,
        spec_octet((a * 0x100_0000 + b * 0x1_0000 + c * 0x100 + d) as u32, 2) == c,
        spec_octet((a * 0x100_0000 + b * 0x1_0000 + c * 0x100 + d) as u32, 3) == d,
{
    let ip = (a * 0x100_0000 + b * 0x1_0000 + c * 0x100 + d) as u32;
    assert(a * 0x100_0000 + b * 0x1_0000 + c * 0x100 + d <= 0xffff_ffff && (ip >> 24u32) == a && ((
    ip >> 16u32) & 0xff) == b && ((ip >> 8u32) & 0xff) == c && (ip & 0xff) == d) by (bit_vector)
        requires
            a <= 255 && b <= 255 && c <= 255 && d <= 255 && ip == (a * 0x100_0000 + b * 0x1_0000
                + c * 0x100 + d) as u32,
    ;
}

/// The dotted-decimal characters of an address.
pub fn format_ipv4(ip: u32) -> (r: Vec<char>)
    ensures
        r@ == spec_ipv4_text(ip),
{
    proof {
        lemma_octets(ip);
    }
    let o0 = ip >> 24u32;
    let o1 = (ip >> 16u32) & 0xff;
    let o2 = (ip >> 8u32) & 0xff;
    let o3 = ip & 0xff;
    let mut r = u64_to_dec(o0 as u64);
    r.push('.');
    let mut p1 = u64_to_dec(o1 as u64);
    r.append(&mut p1);
    r.push('.');
    let mut p2 = u64_to_dec(o2 as u64);
    r.append(&mut p2);
    r.push('.');
    let mut p3 = u64_to_dec(o3 as u64);
    r.append(&mut p3);
    proof {
        assert(r@ =~= spec_ipv4_text(ip));
    }
    r
}

/// The text of one octet in a dotted-decimal address: one to three digits,
/// value at most 255, no leading zero.
pub open spec fn valid_octet_text(s: Seq<char>) -> bool {
    1 <= s.len() <= 3 && all_digits(s) && digits_value(s) <= 255 && (s.len() > 1 ==> s[0] != '0')
}

/// The dotted-decimal grammar of the standard library: exactly four octets
/// separated by `.`, each within the octet grammar.
pub open spec fn spec_parse_ipv4(s: Seq<char>) -> Option<u32> {
    let parts = split_on(s, '.');
    if parts.len() == 4 && valid_octet_text(parts[0]) && valid_octet_text(parts[1])
        && valid_octet_text(parts[2]) && valid_octet_text(parts[3]) {
        Some(
            (digits_value(parts[0]) * 0x100_0000 + digits_value(parts[1]) * 0x1_0000
                + digits_value(parts[2]) * 0x100 + digits_value(parts[3])) as u32,
        )
    } else {
        None
    }
}

/// Parses the text of one octet.
fn parse_octet(v: &Vec<char>) -> (r: Option<u32>)
    ensures
        match r {
            Some(n) => valid_octet_text(v@) && n == digits_value(v@) && n <= 255,
            None => !valid_octet_text(v@),
        },
{
    if v.len() < 1 || v.len() > 3 {
        return None;
    }
    if v.len() > 1 && v[0] == '0' {
        return None;
    }
    let mut acc: u32 = 0;
    let n = v.len();
    for i in 0..n
        invariant
            n == v@.len() <= 3,
            forall|j: int| 0 <= j < i ==> is_digit(v@[j]),
            acc == digits_value(v@.take(i as int)),
            acc <= 999,
    {
        let c = v[i];
        if !('0' <= c && c <= '9') {
            proof {
                assert(!is_digit(v@[i as int]));
                assert(!all_digits(v@));
            }
            return None;
        }
        let d: u32 = (c as u32) - 48;
        proof {
            assert(c as u32 >= 48 && c as u32 <= 57);
            assert(d == digit_value(c));
            let p = v@.take(i + 1);
            assert(p.drop_last() =~= v@.take(i as int));
            assert(p.last() == v@[i as int]);
            lemma_octet_digits_bound(v@, i + 1);
        }
        acc = 10 * acc + d;
    }
    proof {
        assert(v@.take(n as int) =~= v@);
    }
    if acc > 255 {
        return None;
    }
    Some(acc)
}

/// A digit string of length at most three denotes a value below 1000.
proof fn lemma_octet_digits_bound(s: Seq<char>, k: int)
    requires
        0 <= k <= s.len(),
        k <= 3,
        forall|i: int| 0 <= i < k ==> is_digit(s[i]),
    ensures
        digits_value(s.take(k)) <= 999,
        k <= 2 ==> digits_value(s.take(k)) <= 99,
        k <= 1 ==> digits_value(s.take(k)) <= 9,
    decreases k,
{
    if k == 0 {
        assert(s.take(0) =~= Seq::<char>::empty());
    } else {
        lemma_octet_digits_bound(s, k - 1);
        let p = s.take(k);
        assert(p.drop_last() =~= s.take(k - 1));
        assert(is_digit(p.last()));
        assert(digit_value(p.last()) <= 9);
    }
}

/// Parses dotted-decimal IPv4 text.
pub fn parse_ipv4(v: &Vec<char>) -> (r: Option<u32>)
    ensures
        match r {
            Some(ip) => spec_parse_ipv4(v@) == Some(ip),
            None => spec_parse_ipv4(v@) is None,
        },
{
    let parts = split_char(v, '.');
    proof {
        assert(parts.deep_view().len() == split_on(v@, '.').len());
    }
    if parts.len() != 4 {
        return None;
    }
    proof {
        assert(parts[0]@ =~= split_on(v@, '.')[0]);
        assert(parts[1]@ =~= split_on(v@, '.')[1]);
        assert(parts[2]@ =~= split_on(v@, '.')[2]);
        assert(parts[3]@ =~= split_on(v@, '.')[3]);
    }
    let a = match parse_octet(&parts[0]) {
        Some(x) => x,
        None => {
            return None;
        },
    };
    let b = match parse_octet(&parts[1]) {
        Some(x) => x,
        None => {
            return None;
        },
    };
    let c = match parse_octet(&parts[2]) {
        Some(x) => x,
        None => {
            return None;
        },
    };
    let d = match parse_octet(&parts[3]) {
        Some(x) => x,
        None => {
            return None;
        },
    };
    proof {
        lemma_octets_compose(a, b, c, d);
    }
    Some(a * 0x100_0000 + b * 0x1_0000 + c * 0x100 + d)
}

} // verus!
