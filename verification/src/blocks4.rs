//! The greedy decomposition of an address range into aligned CIDR blocks,
//! and the minimal enclosing supernet.

use vstd::prelude::*;

use crate::addr4::{spec_mask32, spec_ipv4_text, format_ipv4, mask_for_prefix};
use crate::arith::{pow2, pow2_u64, spec_digits, u64_to_dec, lemma_pow2_pos, lemma_pow2_mono,
    lemma_pow2_shift64};
use crate::text::chars_to_string;

verus! {

/// One CIDR block: a network address and a prefix length.
#[derive(Clone, Copy, Debug, PartialEq, Eq, Structural)]
pub struct CidrBlock {
    pub network: u32,
    pub prefix: u32,
}

/// How many addresses the block holds.
pub open spec fn block_size(b: CidrBlock) -> nat
    recommends
        b.prefix <= 32,
{
    pow2((32 - b.prefix) as nat)
}

/// The last address of the block, as a mathematical integer.
pub open spec fn block_last(b: CidrBlock) -> int {
    b.network + block_size(b) - 1
}

/// A block is aligned when its network address is a multiple of its size.
pub open spec fn block_aligned(b: CidrBlock) -> bool {
    b.network as nat % block_size(b) == 0
}

/// The number of trailing zero bits, counted by repeated halving, bounded
/// by the given fuel.
pub open spec fn spec_tz(v: nat, fuel: nat) -> nat
    decreases fuel,
{
    if fuel == 0 || v % 2 == 1 {
        0nat
    } else {
        1 + spec_tz(v / 2, (fuel - 1) as nat)
    }
}

/// Trailing zeros of a 32-bit word; 32 for zero.
pub open spec fn spec_tz32(v: u32) -> nat {
    spec_tz(v as nat, 32)
}

/// Floor of the base-two logarithm, zero below two.
pub open spec fn spec_log2(n: nat) -> nat
    decreases n,
{
    if n < 2 {
        0nat
    } else {
        1 + spec_log2(n / 2)
    }
}

proof fn lemma_tz_bound(v: nat, fuel: nat)
    ensures
        spec_tz(v, fuel) <= fuel,
    decreases fuel,
{
    if fuel > 0 && v % 2 == 0 {
        lemma_tz_bound(v / 2, (fuel - 1) as nat);
    }
}

/// The word is divisible by two to its trailing-zero count.
proof fn lemma_tz_divides(v: nat, fuel: nat)
    ensures
        v % pow2(spec_tz(v, fuel)) == 0,
    decreases fuel,
{
    let t = spec_tz(v, fuel);
    if fuel == 0 || v % 2 == 1 {
        assert(pow2(0) == 1);
        assert(v % 1 == 0) by (nonlinear_arith);
    } else {
        lemma_tz_divides(v / 2, (fuel - 1) as nat);
        let t1 = spec_tz(v / 2, (fuel - 1) as nat);
        let h = v / 2;
        assert(v == 2 * h);
        let m = h / pow2(t1);
        assert(h == pow2(t1) * m + h % pow2(t1)) by {
            lemma_pow2_pos(t1);
            vstd::arithmetic::div_mod::lemma_fundamental_div_mod(h as int, pow2(t1) as int);
        }
        assert(h == pow2(t1) * m);
        assert(v == 2 * (pow2(t1) * m));
        assert(2 * (pow2(t1) * m) == (2 * pow2(t1)) * m) by (nonlinear_arith);
        assert(pow2(t1 + 1) == 2 * pow2(t1));
        assert(v == pow2(t1 + 1) * m);
        assert(pow2(t1 + 1) * m % pow2(t1 + 1) == 0) by {
            lemma_pow2_pos(t1 + 1);
            vstd::arithmetic::div_mod::lemma_mod_multiples_basic(
                m as int,
                pow2(t1 + 1) as int,
            );
        }
    }
}

/// The base-two logarithm brackets its argument between two powers.
proof fn lemma_log2_bounds(n: nat)
    requires
        n >= 1,
    ensures
        pow2(spec_log2(n)) <= n,
        n < pow2(spec_log2(n) + 1),
    decreases n,
{
    if n < 2 {
        assert(pow2(0) == 1 && pow2(1) == 2);
    } else {
        lemma_log2_bounds(n / 2);
        let l = spec_log2(n / 2);
        assert(pow2(l + 1) == 2 * pow2(l));
        assert(pow2(l + 2) == 2 * pow2(l + 1));
    }
}

/// The exponent of the greedy block at cursor `s` inside `[s, e]`: as large
/// as the cursor's alignment and the remaining span allow.
pub open spec fn spec_block_k(s: u32, e: u32) -> nat
    recommends
        s <= e,
{
    let a = spec_tz32(s);
    let b = spec_log2((e - s + 1) as nat);
    if a <= b {
        a
    } else {
        b
    }
}

/// The greedy decomposition of `[s, e]` into aligned CIDR blocks: emit the
/// largest aligned block that fits, then continue past it.
pub open spec fn spec_greedy_blocks(s: u32, e: u32) -> Seq<CidrBlock>
    recommends
        s <= e,
    decreases e - s,
        when s <= e
    via spec_greedy_blocks_dec
{
    let k = spec_block_k(s, e);
    let size = pow2(k);
    let blk = CidrBlock { network: s, prefix: (32 - k) as u32 };
    if s + size - 1 >= e {
        seq![blk]
    } else {
        seq![blk] + spec_greedy_blocks((s + size) as u32, e)
    }
}

#[via_fn]
proof fn spec_greedy_blocks_dec(s: u32, e: u32) {
    lemma_block_k_fits(s, e);
    lemma_pow2_pos(spec_block_k(s, e));
}

/// The greedy block always fits inside the range and is aligned.
proof fn lemma_block_k_fits(s: u32, e: u32)
    requires
        s <= e,
    ensures
        spec_block_k(s, e) <= 32,
        pow2(spec_block_k(s, e)) <= e - s + 1,
        s as nat % pow2(spec_block_k(s, e)) == 0,
{
    let a = spec_tz32(s);
    let b = spec_log2((e - s + 1) as nat);
    let k = spec_block_k(s, e);
    lemma_tz_bound(s as nat, 32);
    lemma_log2_bounds((e - s + 1) as nat);
    assert(pow2(b) <= e - s + 1);
    if k < b {
        lemma_pow2_mono(k, b);
    }
    lemma_tz_divides(s as nat, 32);
    if k < a {
        // s is a multiple of pow2(a), hence of the smaller pow2(k)
        lemma_pow2_mono(k, a);
        lemma_mod_pow2_smaller(s as nat, k, a);
    }
}

/// A multiple of a larger power of two is a multiple of a smaller one.
proof fn lemma_mod_pow2_smaller(v: nat, k: nat, a: nat)
    requires
        k <= a,
        v % pow2(a) == 0,
    ensures
        v % pow2(k) == 0,
{
    lemma_pow2_pos(a);
    lemma_pow2_pos(k);
    let m = v / pow2(a);
    vstd::arithmetic::div_mod::lemma_fundamental_div_mod(v as int, pow2(a) as int);
    assert(v == pow2(a) * m);
    lemma_pow2_split(k, (a - k) as nat);
    assert(pow2(a) == pow2(k) * pow2((a - k) as nat));
    assert((pow2(k) * pow2((a - k) as nat)) * m == pow2(k) * (pow2((a - k) as nat) * m))
        by (nonlinear_arith);
    assert(v == pow2(k) * (pow2((a - k) as nat) * m));
    let y = (pow2((a - k) as nat) * m) as int;
    vstd::arithmetic::div_mod::lemma_mod_multiples_basic(y, pow2(k) as int);
    assert((y * pow2(k)) % pow2(k) as int == 0);
    assert(v == y * pow2(k)) by (nonlinear_arith)
        requires
            v == pow2(k) * y,
    ;
}

/// Powers of two multiply by adding exponents.
pub proof fn lemma_pow2_split(a: nat, b: nat)
    ensures
        pow2(a + b) == pow2(a) * pow2(b),
    decreases b,
{
    if b == 0 {
        assert(pow2(a) * 1 == pow2(a)) by (nonlinear_arith);
    } else {
        lemma_pow2_split(a, (b - 1) as nat);
        assert(pow2(a + b) == 2 * pow2((a + b - 1) as nat));
        assert(2 * (pow2(a) * pow2((b - 1) as nat)) == pow2(a) * (2 * pow2((b - 1) as nat)))
            by (nonlinear_arith);
    }
}

/// The structural exactness of a block list on `[s, e]`: it starts at `s`,
/// ends at `e`, every block is aligned and in range, and consecutive blocks
/// are contiguous.
pub open spec fn blocks_exact(bs: Seq<CidrBlock>, s: u32, e: u32) -> bool {
    &&& bs.len() >= 1
    &&& bs[0].network == s
    &&& block_last(bs.last()) == e
    &&& forall|i: int|
        0 <= i < bs.len() ==> (#[trigger] bs[i].prefix) <= 32 && block_aligned(bs[i])
            && block_last(bs[i]) <= u32::MAX
    &&& forall|i: int| 0 <= i < bs.len() - 1 ==> #[trigger] bs[i + 1].network == block_last(bs[i]) + 1
}

/// The greedy decomposition is exact.
pub proof fn lemma_greedy_blocks_exact(s: u32, e: u32)
    requires
        s <= e,
    ensures
        blocks_exact(spec_greedy_blocks(s, e), s, e),
    decreases e - s,
{
    lemma_block_k_fits(s, e);
    lemma_pow2_pos(spec_block_k(s, e));
    let k = spec_block_k(s, e);
    let size = pow2(k);
    let blk = CidrBlock { network: s, prefix: (32 - k) as u32 };
    let bs = spec_greedy_blocks(s, e);
    assert(block_size(blk) == size);
    assert(block_last(blk) == s + size - 1 <= e);
    if s + size - 1 >= e {
        assert(bs =~= seq![blk]);
        assert(bs.last() == blk);
    } else {
        let s2 = (s + size) as u32;
        lemma_greedy_blocks_exact(s2, e);
        let rest = spec_greedy_blocks(s2, e);
        assert(bs =~= seq![blk] + rest);
        assert(bs[0] == blk);
        assert(bs.last() == rest.last());
        assert forall|i: int|
            0 <= i < bs.len() implies (#[trigger] bs[i].prefix) <= 32 && block_aligned(bs[i])
            && block_last(bs[i]) <= u32::MAX by {
            if i > 0 {
                assert(bs[i] == rest[i - 1]);
                assert(rest[i - 1].prefix <= 32 && block_aligned(rest[i - 1]) && block_last(
                    rest[i - 1],
                ) <= u32::MAX);
            }
        }
        assert forall|i: int| 0 <= i < bs.len() - 1 implies #[trigger] bs[i + 1].network
            == block_last(bs[i]) + 1 by {
            if i == 0 {
                assert(bs[1] == rest[0]);
                assert(rest[0].network == s2);
            } else {
                assert(bs[i + 1] == rest[i] && bs[i] == rest[i - 1]);
                assert(rest[i - 1 + 1].network == block_last(rest[i - 1]) + 1);
            }
        }
    }
}

/// Whether an address lies inside a block.
pub open spec fn in_block(b: CidrBlock, x: u32) -> bool {
    b.network <= x && x <= block_last(b)
}

/// Whether some block of the list holds the address.
pub open spec fn blocks_cover(bs: Seq<CidrBlock>, x: u32) -> bool {
    exists|i: int| #![trigger bs[i]] 0 <= i < bs.len() && in_block(bs[i], x)
}

/// An exact block list covers precisely the range it decomposes, and its
/// blocks are sorted and pairwise disjoint: the union of the emitted
/// blocks' address sets reconstructs exactly the interval.
pub proof fn lemma_blocks_exact_cover(bs: Seq<CidrBlock>, s: u32, e: u32)
    requires
        blocks_exact(bs, s, e),
    ensures
        forall|x: u32| blocks_cover(bs, x) == (s <= x <= e),
        forall|i: int, j: int|
            0 <= i < j < bs.len() ==> block_last(#[trigger] bs[i]) < (#[trigger] bs[j]).network,
    decreases bs.len(),
{
    assert forall|i: int, j: int|
        0 <= i < j < bs.len() implies block_last(#[trigger] bs[i]) < (
    #[trigger] bs[j]).network by {
        lemma_blocks_chain(bs, i, j);
    }
    assert forall|x: u32| blocks_cover(bs, x) == (s <= x <= e) by {
        lemma_blocks_cover_one(bs, s, e, x);
    }
}

/// Blocks later in an exact list start beyond earlier blocks.
proof fn lemma_blocks_chain(bs: Seq<CidrBlock>, i: int, j: int)
    requires
        0 <= i < j < bs.len(),
        forall|i: int| 0 <= i < bs.len() ==> (#[trigger] bs[i].prefix) <= 32 && block_aligned(bs[i])
            && block_last(bs[i]) <= u32::MAX,
        forall|i: int| 0 <= i < bs.len() - 1 ==> #[trigger] bs[i + 1].network == block_last(bs[i]) + 1,
    ensures
        block_last(bs[i]) < bs[j].network,
        bs[i].network <= bs[j].network,
    decreases j - i,
{
    lemma_pow2_pos((32 - bs[i].prefix) as nat);
    if j == i + 1 {
        assert(bs[i + 1].network == block_last(bs[i]) + 1);
    } else {
        lemma_blocks_chain(bs, i, j - 1);
        assert(bs[j - 1 + 1].network == block_last(bs[j - 1]) + 1);
        lemma_pow2_pos((32 - bs[j - 1].prefix) as nat);
    }
}

/// Coverage of one address by an exact list.
proof fn lemma_blocks_cover_one(bs: Seq<CidrBlock>, s: u32, e: u32, x: u32)
    requires
        blocks_exact(bs, s, e),
    ensures
        blocks_cover(bs, x) == (s <= x <= e),
    decreases bs.len(),
{
    lemma_pow2_pos((32 - bs[0].prefix) as nat);
    if bs.len() == 1 {
        assert(bs.last() == bs[0]);
        if s <= x <= e {
            assert(in_block(bs[0], x));
        }
        if blocks_cover(bs, x) {
            let i = choose|i: int| #![trigger bs[i]] 0 <= i < bs.len() && in_block(bs[i], x);
            assert(i == 0);
        }
    } else {
        let t = bs.skip(1);
        let b0 = bs[0];
        let s2 = bs[1].network;
        assert(bs[0int + 1].network == block_last(bs[0int]) + 1);
        assert(s2 == block_last(b0) + 1);
        assert(blocks_exact(t, s2, e)) by {
            assert(t.len() >= 1);
            assert(t[0] == bs[1]);
            assert(t.last() == bs.last());
            assert forall|i: int|
                0 <= i < t.len() implies (#[trigger] t[i].prefix) <= 32 && block_aligned(t[i])
                && block_last(t[i]) <= u32::MAX by {
                assert(t[i] == bs[i + 1]);
                assert(bs[i + 1].prefix <= 32 && block_aligned(bs[i + 1]) && block_last(bs[i + 1])
                    <= u32::MAX);
            }
            assert forall|i: int| 0 <= i < t.len() - 1 implies #[trigger] t[i + 1].network
                == block_last(t[i]) + 1 by {
                assert(t[i + 1] == bs[i + 2] && t[i] == bs[i + 1]);
                assert(bs[i + 1 + 1].network == block_last(bs[i + 1]) + 1);
            }
        }
        // the last block of t is the last of bs, so s2 <= e + 1; and s2 <= e
        // because block_last(t.last()) == e >= s2 - 1 and t covers [s2, e]
        assert(block_last(t.last()) == e);
        assert(s2 <= e) by {
            if t.len() == 1 {
                assert(t[0] == t.last());
                lemma_pow2_pos((32 - t[0].prefix) as nat);
            } else {
                lemma_blocks_chain(t, 0, t.len() - 1);
                lemma_pow2_pos((32 - t.last().prefix) as nat);
            }
        }
        lemma_blocks_cover_one(t, s2, e, x);
        if s <= x <= e {
            if x <= block_last(b0) {
                assert(in_block(bs[0], x));
            } else {
                assert(covers_tail(bs, x)) by {
                    let i = choose|i: int| #![trigger t[i]] 0 <= i < t.len() && in_block(t[i], x);
                    assert(bs[i + 1] == t[i]);
                }
            }
        }
        if blocks_cover(bs, x) {
            let i = choose|i: int| #![trigger bs[i]] 0 <= i < bs.len() && in_block(bs[i], x);
            if i == 0 {
                assert(s <= x <= e);
            } else {
                assert(t[i - 1] == bs[i]);
                assert(blocks_cover(t, x));
            }
        }
    }
}

/// Helper naming coverage through the tail of a list.
spec fn covers_tail(bs: Seq<CidrBlock>, x: u32) -> bool {
    blocks_cover(bs, x)
}

/// Trailing zeros, by repeated halving with bounded fuel.
fn tz_rec(v: u32, fuel: u32) -> (r: u32)
    ensures
        r == spec_tz(v as nat, fuel as nat),
        r <= fuel,
    decreases fuel,
{
    if fuel == 0 || v % 2 == 1 {
        0
    } else {
        1 + tz_rec(v / 2, fuel - 1)
    }
}

/// The number of trailing zero bits of a word; 32 for zero.
pub fn trailing_zeros_u32(v: u32) -> (r: u32)
    ensures
        r == spec_tz32(v),
        r <= 32,
{
    tz_rec(v, 32)
}

/// Floor of the base-two logarithm.
fn log2_u64(n: u64) -> (r: u32)
    requires
        n >= 1,
    ensures
        r == spec_log2(n as nat),
        r <= 63,
    decreases n,
{
    if n < 2 {
        0
    } else {
        proof {
            if spec_log2((n / 2) as nat) >= 63 {
                lemma_log2_bounds((n / 2) as nat);
                lemma_pow2_mono(63, spec_log2((n / 2) as nat));
                lemma_pow2_shift64(63);
                assert((1u64 << 63u32) == 0x8000_0000_0000_0000) by (bit_vector);
            }
        }
        1 + log2_u64(n / 2)
    }
}

/// The greedy decomposition, computed exactly as specified.
pub fn range_to_blocks(start: u32, end: u32) -> (r: Vec<CidrBlock>)
    requires
        start <= end,
    ensures
        r@ == spec_greedy_blocks(start, end),
        blocks_exact(r@, start, end),
    decreases end - start,
{
    proof {
        lemma_block_k_fits(start, end);
        lemma_pow2_pos(spec_block_k(start, end));
        lemma_greedy_blocks_exact(start, end);
    }
    let a = trailing_zeros_u32(start);
    let span: u64 = (end - start) as u64 + 1;
    let b = log2_u64(span);
    let k: u32 = if a <= b {
        a
    } else {
        b
    };
    assert(k as nat == spec_block_k(start, end));
    assert(k <= 32);
    let size: u64 = pow2_u64(k);
    let blk = CidrBlock { network: start, prefix: 32 - k };
    if (start as u64) + size - 1 >= (end as u64) {
        let mut r: Vec<CidrBlock> = Vec::new();
        r.push(blk);
        proof {
            assert(r@ =~= spec_greedy_blocks(start, end));
        }
        r
    } else {
        let next = (start as u64) + size;
        assert(next <= end as u64);
        let mut rest = range_to_blocks(next as u32, end);
        let mut r: Vec<CidrBlock> = Vec::new();
        r.push(blk);
        r.append(&mut rest);
        proof {
            assert(r@ =~= spec_greedy_blocks(start, end));
        }
        r
    }
}

/// The text of one block, `network/prefix`.
pub open spec fn spec_cidr_text(b: CidrBlock) -> Seq<char> {
    spec_ipv4_text(b.network) + seq!['/'] + spec_digits(b.prefix as nat)
}

/// The block texts of the greedy decomposition of `[start, end]`.
pub fn range_to_cidrs(start: u32, end: u32) -> (r: Vec<String>)
    requires
        start <= end,
    ensures
        r.deep_view() == spec_greedy_blocks(start, end).map_values(|b: CidrBlock| spec_cidr_text(b)),
{
    let blocks = range_to_blocks(start, end);
    let mut r: Vec<String> = Vec::new();
    let n = blocks.len();
    for i in 0..n
        invariant
            n == blocks@.len(),
            blocks@ == spec_greedy_blocks(start, end),
            forall|j: int| 0 <= j < blocks@.len() ==> (#[trigger] blocks@[j].prefix) <= 32,
            r.deep_view() =~= blocks@.take(i as int).map_values(
                |b: CidrBlock| spec_cidr_text(b),
            ),
    {
        let s = cidr_block_text(&blocks[i]);
        r.push(s);
        proof {
            assert(blocks@.take(i + 1).map_values(|b: CidrBlock| spec_cidr_text(b)) =~= blocks@.take(
                i as int,
            ).map_values(|b: CidrBlock| spec_cidr_text(b)).push(spec_cidr_text(blocks@[i as int])));
            assert(r.deep_view() =~= blocks@.take(i + 1).map_values(
                |b: CidrBlock| spec_cidr_text(b),
            ));
        }
    }
    proof {
        assert(blocks@.take(n as int) =~= blocks@);
    }
    r
}

/// The `network/prefix` text of one block.
pub fn cidr_block_text(b: &CidrBlock) -> (r: String)
    requires
        b.prefix <= 32,
    ensures
        r@ == spec_cidr_text(*b),
{
    let mut v = format_ipv4(b.network);
    v.push('/');
    let mut d = u64_to_dec(b.prefix as u64);
    v.append(&mut d);
    proof {
        assert(v@ =~= spec_cidr_text(*b));
    }
    chars_to_string(&v)
}

/// Leading zeros of a value seen as a `w`-bit word.
pub open spec fn spec_lz(v: nat, w: nat) -> nat
    decreases w,
{
    if w == 0 {
        0nat
    } else if v < pow2((w - 1) as nat) {
        1 + spec_lz(v, (w - 1) as nat)
    } else {
        0nat
    }
}

/// Leading zeros of a 32-bit word; 32 for zero.
pub open spec fn spec_lz32(v: u32) -> nat {
    spec_lz(v as nat, 32)
}

proof fn lemma_lz_bounds(v: nat, w: nat)
    requires
        v < pow2(w),
    ensures
        spec_lz(v, w) <= w,
        v < pow2((w - spec_lz(v, w)) as nat),
        spec_lz(v, w) < w ==> v >= pow2((w - spec_lz(v, w) - 1) as nat),
    decreases w,
{
    if w > 0 && v < pow2((w - 1) as nat) {
        lemma_lz_bounds(v, (w - 1) as nat);
    }
}

fn lz_rec(v: u32, w: u32) -> (r: u32)
    requires
        w <= 32,
        (v as nat) < pow2(w as nat),
    ensures
        r == spec_lz(v as nat, w as nat),
        r <= w,
    decreases w,
{
    if w == 0 {
        0
    } else {
        let half = pow2_u64(w - 1);
        if (v as u64) < half {
            1 + lz_rec(v, w - 1)
        } else {
            0
        }
    }
}

/// The number of leading zero bits of a word; 32 for zero.
pub fn leading_zeros_u32(v: u32) -> (r: u32)
    ensures
        r == spec_lz32(v),
        r <= 32,
{
    proof {
        lemma_pow2_shift64(32);
        assert((1u64 << 32u32) == 0x1_0000_0000) by (bit_vector);
    }
    lz_rec(v, 32)
}

/// The minimal enclosing supernet of two endpoints: the longest prefix
/// whose block contains both. Its prefix is the number of leading zero
/// bits of `start XOR end`, its network is `start` masked to that prefix.
pub fn supernet_of(start: u32, end: u32) -> (r: (u32, u32))
    requires
        start <= end,
    ensures
        r.1 == spec_lz32(start ^ end),
        r.1 <= 32,
        r.0 == start & spec_mask32(r.1),
        r.0 == end & spec_mask32(r.1),
        r.0 <= start,
        end <= r.0 + pow2((32 - r.1) as nat) - 1,
        r.1 < 32 ==> (start & spec_mask32((r.1 + 1) as u32)) != (end & spec_mask32(
            (r.1 + 1) as u32,
        )),
{
    let x = start ^ end;
    let prefix = leading_zeros_u32(x);
    let network = start & mask_for_prefix(prefix);
    proof {
        lemma_pow2_shift64(32);
        assert((1u64 << 32u32) == 0x1_0000_0000) by (bit_vector);
        lemma_lz_bounds(x as nat, 32);
        let kk = (32 - prefix) as u32;
        if prefix < 32 {
            lemma_pow2_shift64(kk);
            lemma_pow2_shift64((kk - 1) as u32);
            assert(start & spec_mask32(prefix) == end & spec_mask32(prefix) && (start & spec_mask32(
                prefix,
            )) <= start && end <= (start & spec_mask32(prefix)) + (1u64 << kk) - 1 && (start
                & spec_mask32((prefix + 1) as u32)) != (end & spec_mask32((prefix + 1) as u32)))
                by (bit_vector)
                requires
                    prefix < 32 && kk == 32 - prefix && x == (start ^ end) && start <= end && (
                    x as u64) < (1u64 << kk) && (x as u64) >= (1u64 << ((kk - 1) as u32)),
            ;
        } else {
            assert((x as nat) < pow2(0));
            assert(x == 0);
            assert(start == end && start & 0xffff_ffffu32 == start) by (bit_vector)
                requires
                    x == (start ^ end) && x == 0 && start <= end,
            ;
            assert((0xffff_ffffu32 << 0u32) == 0xffff_ffffu32) by (bit_vector);
            assert(spec_mask32(32) == 0xffff_ffffu32);
            assert(pow2(0) == 1);
        }
    }
    (network, prefix)
}

} // verus!
