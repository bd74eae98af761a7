//! IPv6 addresses as 128-bit words: colon-separated hex-group text, full
//! and compressed renderings.
//!
//! The grammar is the plain hex-group form: one to four hex digits per
//! group, eight groups, or fewer with one `::` standing for at least one
//! zero group. Zone suffixes and embedded dotted-decimal notation are
//! outside this engine's scope and are rejected.

use vstd::prelude::*;

use crate::arith::{pow2, spec_hex, hex_fixed, lemma_pow2_shift128, lemma_pow2_pos};
use crate::text::{split_on, split_char, chars_range};

verus! {

/// Whether a character is a hexadecimal digit.
pub open spec fn is_hex_digit(c: char) -> bool {
    ('0' <= c && c <= '9') || ('a' <= c && c <= 'f') || ('A' <= c && c <= 'F')
}

/// The value of one hexadecimal digit character.
pub open spec fn hex_digit_value(c: char) -> nat {
    if '0' <= c && c <= '9' {
        (c as nat - '0' as nat) as nat
    } else if 'a' <= c && c <= 'f' {
        (c as nat - 'a' as nat + 10) as nat
    } else {
        (c as nat - 'A' as nat + 10) as nat
    }
}

/// One group: one to four hex digits.
pub open spec fn valid_hex_group(g: Seq<char>) -> bool {
    1 <= g.len() <= 4 && forall|i: int| 0 <= i < g.len() ==> is_hex_digit(#[trigger] g[i])
}

/// The value of one group.
pub open spec fn hex_group_value(g: Seq<char>) -> nat
    decreases g.len(),
{
    if g.len() == 0 {
        0nat
    } else {
        (16 * hex_group_value(g.drop_last()) + hex_digit_value(g.last())) as nat
    }
}

pub open spec fn all_groups_valid(parts: Seq<Seq<char>>) -> bool {
    forall|i: int| 0 <= i < parts.len() ==> valid_hex_group(#[trigger] parts[i])
}

/// The value of a group list, most significant group first.
pub open spec fn groups_value(parts: Seq<Seq<char>>) -> nat
    decreases parts.len(),
{
    if parts.len() == 0 {
        0nat
    } else {
        (groups_value(parts.drop_last()) * 0x10000 + hex_group_value(parts.last())) as nat
    }
}

/// The index of the first `::`, or -1.
pub open spec fn first_pair_index(s: Seq<char>) -> int
    decreases s.len(),
{
    if s.len() < 2 {
        -1
    } else if s[0] == ':' && s[1] == ':' {
        0
    } else {
        let r = first_pair_index(s.skip(1));
        if r < 0 {
            -1
        } else {
            r + 1
        }
    }
}

/// The hex-group IPv6 grammar: eight plain groups, or at most seven around
/// a single `::`.
pub open spec fn spec_parse_ipv6(s: Seq<char>) -> Option<u128> {
    let i = first_pair_index(s);
    if i < 0 {
        let parts = split_on(s, ':');
        if parts.len() == 8 && all_groups_valid(parts) {
            Some(groups_value(parts) as u128)
        } else {
            None
        }
    } else {
        let head = s.take(i);
        let tail = s.skip(i + 2);
        if first_pair_index(tail) >= 0 {
            None
        } else {
            let hp = if head.len() == 0 {
                Seq::<Seq<char>>::empty()
            } else {
                split_on(head, ':')
            };
            let tp = if tail.len() == 0 {
                Seq::<Seq<char>>::empty()
            } else {
                split_on(tail, ':')
            };
            if all_groups_valid(hp) && all_groups_valid(tp) && hp.len() + tp.len() <= 7 {
                Some(
                    (groups_value(hp) * pow2((16 * (8 - hp.len())) as nat) + groups_value(
                        tp,
                    )) as u128,
                )
            } else {
                None
            }
        }
    }
}

/// A group of at most four digits stays below 2^16.
proof fn lemma_hex_group_bound(g: Seq<char>)
    requires
        g.len() <= 4,
        forall|i: int| 0 <= i < g.len() ==> is_hex_digit(#[trigger] g[i]),
    ensures
        hex_group_value(g) < 0x10000,
        g.len() <= 3 ==> hex_group_value(g) < 0x1000,
        g.len() <= 2 ==> hex_group_value(g) < 0x100,
        g.len() <= 1 ==> hex_group_value(g) < 0x10,
    decreases g.len(),
{
    if g.len() > 0 {
        assert forall|i: int| 0 <= i < g.drop_last().len() implies is_hex_digit(
            #[trigger] g.drop_last()[i],
        ) by {
            assert(g.drop_last()[i] == g[i]);
        }
        lemma_hex_group_bound(g.drop_last());
        assert(is_hex_digit(g.last()));
        lemma_hex_digit_value_bound(g.last());
    }
}

/// A hex digit's value is below 16.
proof fn lemma_hex_digit_value_bound(c: char)
    requires
        is_hex_digit(c),
    ensures
        hex_digit_value(c) < 16,
{
}

/// A group list's value stays below 2^(16 n).
proof fn lemma_groups_value_bound(parts: Seq<Seq<char>>)
    requires
        all_groups_valid(parts),
    ensures
        groups_value(parts) < pow2((16 * parts.len()) as nat),
    decreases parts.len(),
{
    lemma_pow2_pos((16 * parts.len()) as nat);
    if parts.len() > 0 {
        assert(all_groups_valid(parts.drop_last())) by {
            assert forall|i: int|
                0 <= i < parts.drop_last().len() implies valid_hex_group(
                #[trigger] parts.drop_last()[i]) by {
                assert(parts.drop_last()[i] == parts[i]);
                assert(valid_hex_group(parts[i]));
            }
        }
        lemma_groups_value_bound(parts.drop_last());
        assert(valid_hex_group(parts.last())) by {
            assert(parts.last() == parts[parts.len() - 1]);
        }
        lemma_hex_group_bound(parts.last());
        let n1 = (16 * (parts.len() - 1)) as nat;
        crate::blocks4::lemma_pow2_split(n1, 16);
        assert(pow2(16) == 0x10000) by {
            lemma_pow2_shift128(16);
            assert((1u128 << 16u32) == 0x10000) by (bit_vector);
        }
        assert(groups_value(parts.drop_last()) * 0x10000 + hex_group_value(parts.last()) < pow2(
            n1,
        ) * 0x10000) by (nonlinear_arith)
            requires
                groups_value(parts.drop_last()) < pow2(n1) && hex_group_value(parts.last())
                    < 0x10000,
        ;
    }
}

/// Parses one hex group.
fn parse_hex_group(g: &Vec<char>) -> (r: Option<u16>)
    ensures
        match r {
            Some(x) => valid_hex_group(g@) && x == hex_group_value(g@),
            None => !valid_hex_group(g@),
        },
{
    if g.len() < 1 || g.len() > 4 {
        return None;
    }
    let mut acc: u16 = 0;
    let n = g.len();
    for i in 0..n
        invariant
            n == g@.len() <= 4,
            forall|j: int| 0 <= j < i ==> is_hex_digit(#[trigger] g@[j]),
            acc == hex_group_value(g@.take(i as int)),
            acc < 0x10000,
    {
        proof {
            lemma_hex_group_prefix_bound(g@, i as int);
        }
        let c = g[i];
        let d: u16 = if '0' <= c && c <= '9' {
            ((c as u32) - 48) as u16
        } else if 'a' <= c && c <= 'f' {
            ((c as u32) - 87) as u16
        } else if 'A' <= c && c <= 'F' {
            ((c as u32) - 55) as u16
        } else {
            proof {
                assert(!is_hex_digit(g@[i as int]));
            }
            return None;
        };
        proof {
            assert(is_hex_digit(g@[i as int]));
            assert(d == hex_digit_value(g@[i as int]));
            let p = g@.take(i + 1);
            assert(p.drop_last() =~= g@.take(i as int));
            assert(p.last() == g@[i as int]);
            lemma_hex_group_prefix_bound(g@, i + 1);
        }
        acc = 16 * acc + d;
    }
    proof {
        assert(g@.take(n as int) =~= g@);
        lemma_hex_group_bound(g@);
    }
    Some(acc)
}

/// Prefix values of a short group stay small.
proof fn lemma_hex_group_prefix_bound(g: Seq<char>, k: int)
    requires
        0 <= k <= g.len(),
        k <= 4,
        forall|i: int| 0 <= i < k ==> is_hex_digit(#[trigger] g[i]),
    ensures
        hex_group_value(g.take(k)) < 0x10000,
        k <= 3 ==> hex_group_value(g.take(k)) < 0x1000,
{
    assert forall|i: int| 0 <= i < g.take(k).len() implies is_hex_digit(
        #[trigger] g.take(k)[i],
    ) by {
        assert(g.take(k)[i] == g[i]);
    }
    lemma_hex_group_bound(g.take(k));
}

/// Finds the first `::`.
fn find_pair(v: &Vec<char>) -> (r: Option<usize>)
    ensures
        match r {
            Some(i) => first_pair_index(v@) == i && i + 1 < v@.len(),
            None => first_pair_index(v@) < 0,
        },
{
    if v.len() < 2 {
        proof {
            lemma_first_pair_facts(v@);
        }
        return None;
    }
    let n = v.len();
    let mut i: usize = 0;
    while i + 1 < n
        invariant
            n == v@.len() >= 2,
            0 <= i <= n - 1,
            forall|j: int| 0 <= j < i ==> !((#[trigger] v@[j]) == ':' && v@[j + 1] == ':'),
        decreases n - i,
    {
        if v[i] == ':' && v[i + 1] == ':' {
            proof {
                lemma_first_pair_prefix(v@, i as int);
            }
            return Some(i);
        }
        i = i + 1;
    }
    proof {
        lemma_first_pair_facts(v@);
        if first_pair_index(v@) >= 0 {
            let k = first_pair_index(v@);
            assert(v@[k] == ':' && v@[k + 1] == ':');
        }
    }
    None
}

/// Where the first pair sits: exactly at the first index whose two
/// characters are both colons.
proof fn lemma_first_pair_prefix(s: Seq<char>, k: int)
    requires
        0 <= k,
        k + 1 < s.len(),
        s[k] == ':' && s[k + 1] == ':',
        forall|j: int| 0 <= j < k ==> !((#[trigger] s[j]) == ':' && s[j + 1] == ':'),
    ensures
        first_pair_index(s) == k,
    decreases k,
{
    if k > 0 {
        assert forall|j: int| 0 <= j < k - 1 implies !((#[trigger] s.skip(1)[j]) == ':' && s.skip(
            1,
        )[j + 1] == ':') by {
            assert(s.skip(1)[j] == s[j + 1] && s.skip(1)[j + 1] == s[j + 2]);
        }
        assert(s.skip(1)[k - 1] == s[k] && s.skip(1)[k] == s[k + 1]);
        lemma_first_pair_prefix(s.skip(1), k - 1);
    }
}

/// The first pair index, when non-negative, points at a pair, and nothing
/// before it is one.
proof fn lemma_first_pair_facts(s: Seq<char>)
    ensures
        first_pair_index(s) >= 0 ==> first_pair_index(s) + 1 < s.len() && s[first_pair_index(s)]
            == ':' && s[first_pair_index(s) + 1] == ':',
        first_pair_index(s) < 0 ==> forall|j: int|
            0 <= j < s.len() - 1 ==> !((#[trigger] s[j]) == ':' && s[j + 1] == ':'),
    decreases s.len(),
{
    if s.len() >= 2 && !(s[0] == ':' && s[1] == ':') {
        lemma_first_pair_facts(s.skip(1));
        let r = first_pair_index(s.skip(1));
        if r >= 0 {
            assert(s.skip(1)[r] == s[r + 1] && s.skip(1)[r + 1] == s[r + 2]);
        } else {
            assert forall|j: int| 0 <= j < s.len() - 1 implies !((#[trigger] s[j]) == ':' && s[j
                + 1] == ':') by {
                if j > 0 {
                    assert(s.skip(1)[j - 1] == s[j] && s.skip(1)[j] == s[j + 1]);
                }
            }
        }
    }
}

/// The value of parsed groups, folded most significant first.
pub open spec fn gv16(vs: Seq<u16>) -> nat
    decreases vs.len(),
{
    if vs.len() == 0 {
        0nat
    } else {
        (gv16(vs.drop_last()) * 0x10000 + vs.last()) as nat
    }
}

/// Parsed group values denote the same number as their texts.
proof fn lemma_gv16_matches(vs: Seq<u16>, parts: Seq<Seq<char>>)
    requires
        vs.len() == parts.len(),
        forall|i: int| 0 <= i < vs.len() ==> #[trigger] vs[i] == hex_group_value(parts[i]),
    ensures
        gv16(vs) == groups_value(parts),
    decreases vs.len(),
{
    if vs.len() > 0 {
        assert forall|i: int| 0 <= i < vs.len() - 1 implies #[trigger] vs.drop_last()[i]
            == hex_group_value(parts.drop_last()[i]) by {
            assert(vs.drop_last()[i] == vs[i] && parts.drop_last()[i] == parts[i]);
        }
        lemma_gv16_matches(vs.drop_last(), parts.drop_last());
        assert(vs.last() == vs[vs.len() - 1]);
    }
}

/// Group values are bounded by their width.
proof fn lemma_gv16_bound(vs: Seq<u16>)
    ensures
        gv16(vs) < pow2((16 * vs.len()) as nat),
    decreases vs.len(),
{
    lemma_pow2_pos((16 * vs.len()) as nat);
    if vs.len() > 0 {
        lemma_gv16_bound(vs.drop_last());
        let n1 = (16 * (vs.len() - 1)) as nat;
        crate::blocks4::lemma_pow2_split(n1, 16);
        assert(pow2(16) == 0x10000) by {
            lemma_pow2_shift128(16);
            assert((1u128 << 16u32) == 0x10000) by (bit_vector);
        }
        assert(gv16(vs.drop_last()) * 0x10000 + vs.last() < pow2(n1) * 0x10000)
            by (nonlinear_arith)
            requires
                gv16(vs.drop_last()) < pow2(n1) && vs.last() < 0x10000,
        ;
    }
}

/// Concatenated group lists compose arithmetically.
proof fn lemma_gv16_append(p: Seq<u16>, q: Seq<u16>)
    ensures
        gv16(p + q) == gv16(p) * pow2((16 * q.len()) as nat) + gv16(q),
    decreases q.len(),
{
    if q.len() == 0 {
        assert(p + q =~= p);
        assert(gv16(p) * pow2(0) == gv16(p)) by (nonlinear_arith)
            requires
                pow2(0) == 1,
        ;
    } else {
        lemma_gv16_append(p, q.drop_last());
        assert((p + q).drop_last() =~= p + q.drop_last());
        assert((p + q).last() == q.last());
        let n1 = (16 * (q.len() - 1)) as nat;
        crate::blocks4::lemma_pow2_split(n1, 16);
        assert(pow2(16) == 0x10000) by {
            lemma_pow2_shift128(16);
            assert((1u128 << 16u32) == 0x10000) by (bit_vector);
        }
        assert((gv16(p) * pow2(n1) + gv16(q.drop_last())) * 0x10000 == gv16(p) * (pow2(n1)
            * 0x10000) + gv16(q.drop_last()) * 0x10000) by (nonlinear_arith);
    }
}

/// A run of zero groups denotes zero.
proof fn lemma_gv16_zeros(z: Seq<u16>)
    requires
        forall|i: int| 0 <= i < z.len() ==> #[trigger] z[i] == 0,
    ensures
        gv16(z) == 0,
    decreases z.len(),
{
    if z.len() > 0 {
        assert forall|i: int| 0 <= i < z.len() - 1 implies #[trigger] z.drop_last()[i] == 0 by {
            assert(z.drop_last()[i] == z[i]);
        }
        lemma_gv16_zeros(z.drop_last());
        assert(z.last() == z[z.len() - 1]);
    }
}

/// Parses every group of a list, or reports the first bad one.
fn parse_group_list(parts: &Vec<Vec<char>>) -> (r: Option<Vec<u16>>)
    ensures
        match r {
            Some(vs) => all_groups_valid(parts.deep_view()) && vs@.len() == parts@.len() && forall|
                i: int,
            |
                0 <= i < vs@.len() ==> #[trigger] vs@[i] == hex_group_value(parts.deep_view()[i]),

            None => !all_groups_valid(parts.deep_view()),
        },
{
    let mut vs: Vec<u16> = Vec::new();
    let n = parts.len();
    for i in 0..n
        invariant
            n == parts@.len(),
            vs@.len() == i,
            forall|j: int|
                0 <= j < i ==> #[trigger] vs@[j] == hex_group_value(parts.deep_view()[j]),
            forall|j: int| 0 <= j < i ==> valid_hex_group(#[trigger] parts.deep_view()[j]),
    {
        proof {
            assert(parts.deep_view()[i as int] == parts@[i as int]@);
        }
        let ghost old_vs = vs@;
        match parse_hex_group(&parts[i]) {
            Some(x) => {
                vs.push(x);
                proof {
                    assert(vs@ == old_vs.push(x));
                    assert(vs@[i as int] == x);
                    assert(valid_hex_group(parts.deep_view()[i as int]));
                }
            },
            None => {
                proof {
                    assert(!valid_hex_group(parts.deep_view()[i as int]));
                }
                return None;
            },
        }
    }
    proof {
        assert(parts.deep_view().len() == parts@.len());
        assert forall|i: int| 0 <= i < parts.deep_view().len() implies valid_hex_group(
            #[trigger] parts.deep_view()[i],
        ) by {
            assert(vs@[i] == hex_group_value(parts.deep_view()[i]));
        }
    }
    Some(vs)
}

/// Folds eight group values into the address.
fn fold_groups(vs: &Vec<u16>) -> (r: u128)
    requires
        vs@.len() <= 8,
    ensures
        r == gv16(vs@),
{
    let mut acc: u128 = 0;
    let n = vs.len();
    for i in 0..n
        invariant
            n == vs@.len() <= 8,
            acc == gv16(vs@.take(i as int)),
            acc < pow2((16 * i) as nat),
    {
        proof {
            lemma_u128_pow_bound(i as int);
            assert(vs@.take(i + 1).drop_last() =~= vs@.take(i as int));
            assert(vs@.take(i + 1).last() == vs@[i as int]);
            lemma_gv16_bound(vs@.take(i + 1));
        }
        acc = acc * 0x10000 + (vs[i] as u128);
    }
    proof {
        assert(vs@.take(n as int) =~= vs@);
    }
    acc
}

/// Power bound used when folding: 2^(16 i) for i < 8 fits the word.
proof fn lemma_u128_pow_bound(i: int)
    requires
        0 <= i <= 7,
    ensures
        pow2((16 * i) as nat) <= 0x1_0000_0000_0000_0000_0000_0000_0000,
{
    crate::arith::lemma_pow2_mono((16 * i) as nat, 112);
    lemma_pow2_shift128(112);
    assert((1u128 << 112u32) == 0x1_0000_0000_0000_0000_0000_0000_0000) by (bit_vector);
}

/// Parses IPv6 hex-group text.
#[verifier::rlimit(100)]
pub fn parse_ipv6(v: &Vec<char>) -> (r: Option<u128>)
    ensures
        match r {
            Some(ip) => spec_parse_ipv6(v@) == Some(ip),
            None => spec_parse_ipv6(v@) is None,
        },
{
    match find_pair(v) {
        None => {
            let parts = split_char(v, ':');
            if parts.len() != 8 {
                return None;
            }
            let vs = match parse_group_list(&parts) {
                Some(x) => x,
                None => {
                    return None;
                },
            };
            proof {
                lemma_gv16_matches(vs@, parts.deep_view());
                lemma_gv16_bound(vs@);
                lemma_pow2_shift128(127);
                crate::arith::lemma_pow2_mono(16 * 8, 128);
                assert(pow2(128) == 2 * pow2(127));
            }
            Some(fold_groups(&vs))
        },
        Some(i) => {
            let n = v.len();
            assert(i + 1 < n);
            let head = chars_range(v, 0, i);
            let tail = chars_range(v, i + 2, n);
            assert(head@ =~= v@.take(i as int));
            assert(tail@ =~= v@.skip(i + 2));
            match find_pair(&tail) {
                Some(_) => {
                    return None;
                },
                None => {},
            }
            let hp: Vec<Vec<char>> = if head.len() == 0 {
                Vec::new()
            } else {
                split_char(&head, ':')
            };
            let tp: Vec<Vec<char>> = if tail.len() == 0 {
                Vec::new()
            } else {
                split_char(&tail, ':')
            };
            proof {
                if head@.len() == 0 {
                    assert(hp.deep_view() =~~= Seq::<Seq<char>>::empty());
                }
                if tail@.len() == 0 {
                    assert(tp.deep_view() =~~= Seq::<Seq<char>>::empty());
                }
            }
            let hv = match parse_group_list(&hp) {
                Some(x) => x,
                None => {
                    return None;
                },
            };
            let tv = match parse_group_list(&tp) {
                Some(x) => x,
                None => {
                    return None;
                },
            };
            if hv.len() > 7 || tv.len() > 7 || hv.len() + tv.len() > 7 {
                return None;
            }
            let mut all8: Vec<u16> = Vec::new();
            let hn = hv.len();
            let tn = tv.len();
            let mut a: usize = 0;
            while a < hn
                invariant
                    hn == hv@.len(),
                    0 <= a <= hn,
                    all8@ == hv@.take(a as int),
                decreases hn - a,
            {
                all8.push(hv[a]);
                assert(all8@ =~= hv@.take(a + 1));
                a = a + 1;
            }
            let zeros = 8 - hn - tn;
            let mut z: usize = 0;
            while z < zeros
                invariant
                    hn + tn <= 7,
                    zeros == 8 - hn - tn,
                    hn == hv@.len(),
                    0 <= z <= zeros,
                    all8@.len() == hn + z,
                    all8@.take(hn as int) == hv@,
                    forall|j: int| hn <= j < hn + z ==> #[trigger] all8@[j] == 0,
                decreases zeros - z,
            {
                all8.push(0u16);
                proof {
                    assert(all8@.take(hn as int) =~= hv@);
                }
                z = z + 1;
            }
            let ghost mid = all8@;
            let mut b: usize = 0;
            while b < tn
                invariant
                    tn == tv@.len(),
                    0 <= b <= tn,
                    mid.len() == 8 - tn,
                    all8@ == mid + tv@.take(b as int),
                decreases tn - b,
            {
                all8.push(tv[b]);
                proof {
                    assert(all8@ =~= mid + tv@.take(b + 1));
                }
                b = b + 1;
            }
            proof {
                assert(tv@.take(tn as int) =~= tv@);
                assert(all8@ =~= mid + tv@);
                assert(all8@.len() == 8);
            }
            let value = fold_groups(&all8);
            proof {
                let zseq = mid.skip(hn as int);
                assert(forall|j: int| 0 <= j < zseq.len() ==> #[trigger] zseq[j] == 0) by {
                    assert(forall|j: int|
                        0 <= j < zseq.len() ==> zseq[j] == #[trigger] mid[j + hn]);
                }
                lemma_gv16_zeros(zseq);
                assert(mid =~= hv@ + zseq);
                lemma_gv16_append(hv@, zseq);
                lemma_gv16_append(mid, tv@);
                lemma_gv16_append(hv@, zseq + tv@);
                assert(mid + tv@ =~= hv@ + (zseq + tv@));
                lemma_gv16_append(zseq, tv@);
                lemma_gv16_matches(hv@, hp.deep_view());
                lemma_gv16_matches(tv@, tp.deep_view());
                let zlen = (16 * (zseq.len() + tv@.len())) as nat;
                assert(gv16(zseq + tv@) == gv16(zseq) * pow2((16 * tv@.len()) as nat) + gv16(tv@));
                assert(gv16(zseq) * pow2((16 * tv@.len()) as nat) == 0) by (nonlinear_arith)
                    requires
                        gv16(zseq) == 0,
                ;
                assert(zseq.len() + tv@.len() == 8 - hv@.len());
                assert(value == gv16(hv@) * pow2((16 * (8 - hv@.len())) as nat) + gv16(tv@));
            }
            Some(value)
        },
    }
}

/// One 16-bit group of an address, counting from the most significant.
pub open spec fn spec_group_of(v: u128, i: int) -> u16
    recommends
        0 <= i < 8,
{
    ((v as nat / pow2((16 * (7 - i)) as nat)) % 0x10000) as u16
}

/// The eight groups of an address.
pub open spec fn spec_groups8(v: u128) -> Seq<u16> {
    Seq::new(8, |i: int| spec_group_of(v, i))
}

/// The fully expanded text: eight four-digit groups.
pub open spec fn spec_ipv6_full(v: u128) -> Seq<char> {
    spec_hex(spec_group_of(v, 0) as nat, 4) + seq![':'] + spec_hex(spec_group_of(v, 1) as nat, 4)
        + seq![':'] + spec_hex(spec_group_of(v, 2) as nat, 4) + seq![':'] + spec_hex(
        spec_group_of(v, 3) as nat,
        4,
    ) + seq![':'] + spec_hex(spec_group_of(v, 4) as nat, 4) + seq![':'] + spec_hex(
        spec_group_of(v, 5) as nat,
        4,
    ) + seq![':'] + spec_hex(spec_group_of(v, 6) as nat, 4) + seq![':'] + spec_hex(
        spec_group_of(v, 7) as nat,
        4,
    )
}

/// One group, extracted by division.
pub fn group_of(v: u128, i: u32) -> (r: u16)
    requires
        i < 8,
    ensures
        r == spec_group_of(v, i as int),
{
    let shift: u32 = 16 * (7 - i);
    proof {
        lemma_pow2_shift128(shift);
        lemma_pow2_pos(shift as nat);
    }
    let divisor: u128 = 1u128 << shift;
    assert(divisor >= 1);
    ((v / divisor) % 0x10000) as u16
}

/// The eight groups of an address, in order.
pub fn groups_of(v: u128) -> (r: Vec<u16>)
    ensures
        r@ == spec_groups8(v),
{
    let mut r: Vec<u16> = Vec::new();
    let mut i: u32 = 0;
    while i < 8
        invariant
            0 <= i <= 8,
            r@.len() == i,
            forall|j: int| 0 <= j < i ==> #[trigger] r@[j] == spec_group_of(v, j),
        decreases 8 - i,
    {
        r.push(group_of(v, i));
        i = i + 1;
    }
    proof {
        assert(r@ =~= spec_groups8(v));
    }
    r
}

/// The fully expanded text of an address.
pub fn format_full_ipv6(v: u128) -> (r: Vec<char>)
    ensures
        r@ == spec_ipv6_full(v),
{
    let mut out: Vec<char> = Vec::new();
    let mut i: u32 = 0;
    let mut first = hex_fixed(group_of(v, 0) as u64, 4);
    out.append(&mut first);
    i = 1;
    while i < 8
        invariant
            1 <= i <= 8,
            out@ == spec_ipv6_full_prefix(v, i as int),
        decreases 8 - i,
    {
        out.push(':');
        let mut g = hex_fixed(group_of(v, i) as u64, 4);
        out.append(&mut g);
        proof {
            assert(out@ =~= spec_ipv6_full_prefix(v, i + 1));
        }
        i = i + 1;
    }
    proof {
        lemma_ipv6_full_unroll(v);
    }
    out
}

/// The eight-group prefix is the whole expanded text.
proof fn lemma_ipv6_full_unroll(v: u128)
    ensures
        spec_ipv6_full_prefix(v, 8) == spec_ipv6_full(v),
{
    assert(spec_ipv6_full_prefix(v, 1) == spec_hex(spec_group_of(v, 0) as nat, 4));
    assert(spec_ipv6_full_prefix(v, 2) == spec_ipv6_full_prefix(v, 1) + seq![':'] + spec_hex(
        spec_group_of(v, 1) as nat,
        4,
    ));
    assert(spec_ipv6_full_prefix(v, 3) == spec_ipv6_full_prefix(v, 2) + seq![':'] + spec_hex(
        spec_group_of(v, 2) as nat,
        4,
    ));
    assert(spec_ipv6_full_prefix(v, 4) == spec_ipv6_full_prefix(v, 3) + seq![':'] + spec_hex(
        spec_group_of(v, 3) as nat,
        4,
    ));
    assert(spec_ipv6_full_prefix(v, 5) == spec_ipv6_full_prefix(v, 4) + seq![':'] + spec_hex(
        spec_group_of(v, 4) as nat,
        4,
    ));
    assert(spec_ipv6_full_prefix(v, 6) == spec_ipv6_full_prefix(v, 5) + seq![':'] + spec_hex(
        spec_group_of(v, 5) as nat,
        4,
    ));
    assert(spec_ipv6_full_prefix(v, 7) == spec_ipv6_full_prefix(v, 6) + seq![':'] + spec_hex(
        spec_group_of(v, 6) as nat,
        4,
    ));
    assert(spec_ipv6_full_prefix(v, 8) == spec_ipv6_full_prefix(v, 7) + seq![':'] + spec_hex(
        spec_group_of(v, 7) as nat,
        4,
    ));
    assert(spec_ipv6_full_prefix(v, 8) =~= spec_ipv6_full(v));
}

/// The expanded text of the first `k` groups.
pub open spec fn spec_ipv6_full_prefix(v: u128, k: int) -> Seq<char>
    decreases k,
{
    if k <= 1 {
        spec_hex(spec_group_of(v, 0) as nat, 4)
    } else {
        spec_ipv6_full_prefix(v, k - 1) + seq![':'] + spec_hex(spec_group_of(v, k - 1) as nat, 4)
    }
}


/// The length of the zero-group run starting at `i`.
pub open spec fn zero_run_at(g: Seq<u16>, i: int) -> int
    decreases g.len() - i,
        when 0 <= i <= g.len()
{
    if i >= g.len() || g[i] != 0 {
        0
    } else {
        1 + zero_run_at(g, i + 1)
    }
}

/// The start of the longest zero run at or after `i`, leftmost on ties.
pub open spec fn best_run_start(g: Seq<u16>, i: int) -> int
    decreases g.len() - i,
        when 0 <= i <= g.len()
{
    if i >= g.len() {
        i
    } else {
        let rest = best_run_start(g, i + 1);
        if zero_run_at(g, i) >= zero_run_at(g, rest) {
            i
        } else {
            rest
        }
    }
}

/// One group in lowercase hex without leading zeros.
pub open spec fn spec_hex_nopad(v: nat) -> Seq<char>
    decreases v,
{
    if v < 16 {
        seq![crate::arith::hex_char(v as int)]
    } else {
        spec_hex_nopad(v / 16).push(crate::arith::hex_char((v % 16) as int))
    }
}

/// Groups joined with single colons.
pub open spec fn spec_join_groups(g: Seq<u16>) -> Seq<char>
    decreases g.len(),
{
    if g.len() == 0 {
        Seq::<char>::empty()
    } else if g.len() == 1 {
        spec_hex_nopad(g[0] as nat)
    } else {
        spec_join_groups(g.drop_last()) + seq![':'] + spec_hex_nopad(g.last() as nat)
    }
}

/// The compressed text: the longest zero-group run of length at least two
/// (leftmost on ties) collapses to `::`; other groups are unpadded
/// lowercase hex.
pub open spec fn spec_ipv6_compressed(v: u128) -> Seq<char> {
    let g = spec_groups8(v);
    let b = best_run_start(g, 0);
    let l = zero_run_at(g, b);
    if l < 2 {
        spec_join_groups(g)
    } else {
        spec_join_groups(g.take(b)) + seq![':', ':'] + spec_join_groups(g.skip(b + l))
    }
}

fn hex_nopad_u16(v: u16) -> (r: Vec<char>)
    ensures
        r@ == spec_hex_nopad(v as nat),
    decreases v,
{
    if v < 16 {
        let mut r: Vec<char> = Vec::new();
        r.push(hex_digit_char_of((v % 16) as u8));
        assert(r@ =~= spec_hex_nopad(v as nat));
        r
    } else {
        let mut r = hex_nopad_u16(v / 16);
        r.push(hex_digit_char_of((v % 16) as u8));
        assert(r@ =~= spec_hex_nopad(v as nat));
        r
    }
}

fn hex_digit_char_of(d: u8) -> (c: char)
    requires
        d < 16,
    ensures
        c == crate::arith::hex_char(d as int),
{
    let chars: [char; 16] = [
        '0',
        '1',
        '2',
        '3',
        '4',
        '5',
        '6',
        '7',
        '8',
        '9',
        'a',
        'b',
        'c',
        'd',
        'e',
        'f',
    ];
    chars[d as usize]
}

fn zero_run_exec(g: &Vec<u16>, i: usize) -> (r: usize)
    requires
        i <= g@.len(),
    ensures
        r == zero_run_at(g@, i as int),
        r <= g@.len() - i,
    decreases g@.len() - i,
{
    if i >= g.len() || g[i] != 0 {
        0
    } else {
        1 + zero_run_exec(g, i + 1)
    }
}

fn best_run_exec(g: &Vec<u16>, i: usize) -> (r: usize)
    requires
        i <= g@.len(),
    ensures
        r == best_run_start(g@, i as int),
        i <= r <= g@.len(),
    decreases g@.len() - i,
{
    if i >= g.len() {
        i
    } else {
        let rest = best_run_exec(g, i + 1);
        let run_here = zero_run_exec(g, i);
        let run_rest = zero_run_exec(g, rest);
        if run_here >= run_rest {
            i
        } else {
            rest
        }
    }
}

/// A copy of part of a group vector.
fn groups_range(g: &Vec<u16>, from: usize, to: usize) -> (r: Vec<u16>)
    requires
        from <= to <= g@.len(),
    ensures
        r@ == g@.subrange(from as int, to as int),
{
    let mut r: Vec<u16> = Vec::new();
    let mut i: usize = from;
    while i < to
        invariant
            from <= i <= to <= g@.len(),
            r@ == g@.subrange(from as int, i as int),
        decreases to - i,
    {
        r.push(g[i]);
        assert(r@ =~= g@.subrange(from as int, i + 1));
        i = i + 1;
    }
    r
}

/// Joins groups with single colons.
fn join_groups(g: &Vec<u16>) -> (r: Vec<char>)
    ensures
        r@ == spec_join_groups(g@),
{
    let mut out: Vec<char> = Vec::new();
    let n = g.len();
    if n == 0 {
        proof {
            assert(out@ =~= spec_join_groups(g@));
        }
        return out;
    }
    let mut first = hex_nopad_u16(g[0]);
    out.append(&mut first);
    proof {
        assert(g@.take(1).len() == 1);
        assert(g@.take(1)[0] == g@[0]);
        assert(out@ =~= spec_join_groups(g@.take(1)));
    }
    let mut k: usize = 1;
    while k < n
        invariant
            1 <= k <= n == g@.len(),
            out@ == spec_join_groups(g@.take(k as int)),
        decreases n - k,
    {
        out.push(':');
        let mut piece = hex_nopad_u16(g[k]);
        out.append(&mut piece);
        proof {
            let p = g@.take(k + 1);
            assert(p.drop_last() =~= g@.take(k as int));
            assert(p.last() == g@[k as int]);
            assert(out@ =~= spec_join_groups(g@.take(k + 1)));
        }
        k = k + 1;
    }
    proof {
        assert(g@.take(n as int) =~= g@);
    }
    out
}

/// The compressed text of an address.
pub fn format_compressed_ipv6(v: u128) -> (r: Vec<char>)
    ensures
        r@ == spec_ipv6_compressed(v),
{
    let groups = groups_of(v);
    let b = best_run_exec(&groups, 0);
    let l = zero_run_exec(&groups, b);
    if l < 2 {
        let r = join_groups(&groups);
        proof {
            assert(r@ =~= spec_ipv6_compressed(v));
        }
        r
    } else {
        let head = groups_range(&groups, 0, b);
        let tail = groups_range(&groups, b + l, groups.len());
        assert(head@ =~= spec_groups8(v).take(b as int));
        assert(tail@ =~= spec_groups8(v).skip(b + l));
        let mut out = join_groups(&head);
        out.push(':');
        out.push(':');
        let mut t = join_groups(&tail);
        out.append(&mut t);
        proof {
            assert(out@ =~= spec_ipv6_compressed(v));
        }
        out
    }
}

} // verus!
