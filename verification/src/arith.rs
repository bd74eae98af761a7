//! Powers of two and decimal rendering, shared by every component.

use vstd::prelude::*;

verus! {

/// 2^k as a mathematical integer.
pub open spec fn pow2(k: nat) -> nat
    decreases k,
{
    if k == 0 {
        1nat
    } else {
        2 * pow2((k - 1) as nat)
    }
}

pub proof fn lemma_pow2_pos(k: nat)
    ensures
        pow2(k) >= 1,
    decreases k,
{
    if k > 0 {
        lemma_pow2_pos((k - 1) as nat);
    }
}

/// Powers of two grow monotonically.
pub proof fn lemma_pow2_mono(a: nat, b: nat)
    requires
        a <= b,
    ensures
        pow2(a) <= pow2(b),
    decreases b,
{
    if a < b {
        lemma_pow2_mono(a, (b - 1) as nat);
        lemma_pow2_pos((b - 1) as nat);
    }
}

/// A power of two below the word width is exactly a left-shifted one.
pub proof fn lemma_pow2_shift64(k: u32)
    requires
        k < 64,
    ensures
        pow2(k as nat) == (1u64 << k),
    decreases k,
{
    if k == 0 {
        assert((1u64 << 0u32) == 1) by (bit_vector);
    } else {
        let j = (k - 1) as u32;
        lemma_pow2_shift64(j);
        assert((1u64 << k) == 2 * (1u64 << j)) by (bit_vector)
            requires
                1 <= k < 64 && j == k - 1,
        ;
    }
}

/// The same fact for 32-bit words.
pub proof fn lemma_pow2_shift32(k: u32)
    requires
        k < 32,
    ensures
        pow2(k as nat) == (1u32 << k),
    decreases k,
{
    if k == 0 {
        assert((1u32 << 0u32) == 1) by (bit_vector);
    } else {
        let j = (k - 1) as u32;
        lemma_pow2_shift32(j);
        assert((1u32 << k) == 2 * (1u32 << j)) by (bit_vector)
            requires
                1 <= k < 32 && j == k - 1,
        ;
    }
}

/// 2^k for k <= 63, as a machine word.
pub fn pow2_u64(k: u32) -> (r: u64)
    requires
        k <= 63,
    ensures
        r == pow2(k as nat),
{
    proof {
        lemma_pow2_shift64(k);
    }
    1u64 << k
}

/// The character for one decimal digit.
pub open spec fn digit_char(d: int) -> char {
    seq!['0', '1', '2', '3', '4', '5', '6', '7', '8', '9'][d]
}

/// The numeric value of one decimal digit character.
pub open spec fn digit_value(c: char) -> nat {
    (c as nat - '0' as nat) as nat
}

/// Whether a character is a decimal digit.
pub open spec fn is_digit(c: char) -> bool {
    '0' <= c && c <= '9'
}

/// `digit_char` and `digit_value` are inverse on single digits.
pub proof fn lemma_digit_char_value(d: int)
    requires
        0 <= d < 10,
    ensures
        digit_value(digit_char(d)) == d,
        is_digit(digit_char(d)),
{
    if d == 0 {
        assert(digit_char(0) == '0');
    } else if d == 1 {
        assert(digit_char(1) == '1');
    } else if d == 2 {
        assert(digit_char(2) == '2');
    } else if d == 3 {
        assert(digit_char(3) == '3');
    } else if d == 4 {
        assert(digit_char(4) == '4');
    } else if d == 5 {
        assert(digit_char(5) == '5');
    } else if d == 6 {
        assert(digit_char(6) == '6');
    } else if d == 7 {
        assert(digit_char(7) == '7');
    } else if d == 8 {
        assert(digit_char(8) == '8');
    } else {
        assert(digit_char(9) == '9');
    }
}

/// The decimal rendering of a non-negative integer, most significant digit
/// first, with no leading zero (a lone `0` for zero).
pub open spec fn spec_digits(n: nat) -> Seq<char>
    decreases n,
{
    if n < 10 {
        seq![digit_char(n as int)]
    } else {
        spec_digits(n / 10).push(digit_char((n % 10) as int))
    }
}

fn digit_to_char(d: u64) -> (c: char)
    requires
        d < 10,
    ensures
        c == digit_char(d as int),
{
    let chars: [char; 10] = ['0', '1', '2', '3', '4', '5', '6', '7', '8', '9'];
    chars[d as usize]
}

/// Decimal digits of a 64-bit value, most significant first.
pub fn u64_to_dec(n: u64) -> (r: Vec<char>)
    ensures
        r@ == spec_digits(n as nat),
    decreases n,
{
    if n < 10 {
        let mut r: Vec<char> = Vec::new();
        r.push(digit_to_char(n));
        assert(r@ =~= spec_digits(n as nat));
        r
    } else {
        let mut r = u64_to_dec(n / 10);
        r.push(digit_to_char(n % 10));
        assert(r@ =~= spec_digits(n as nat));
        r
    }
}

/// Digits grouped in threes from the right with `,`, as decimal totals are
/// displayed.
pub open spec fn spec_thousands(s: Seq<char>) -> Seq<char>
    decreases s.len(),
{
    if s.len() <= 3 {
        s
    } else {
        spec_thousands(s.take(s.len() - 3)) + seq![','] + s.skip(s.len() - 3)
    }
}

/// Inserts thousands separators into a digit sequence.
pub fn group_thousands(v: &Vec<char>) -> (r: Vec<char>)
    ensures
        r@ == spec_thousands(v@),
    decreases v@.len(),
{
    if v.len() <= 3 {
        let r = clone_chars(v);
        assert(r@ =~= spec_thousands(v@));
        r
    } else {
        let mut head = clone_chars(v);
        head.truncate(v.len() - 3);
        assert(head@ =~= v@.take(v@.len() - 3));
        let mut r = group_thousands(&head);
        r.push(',');
        r.push(v[v.len() - 3]);
        r.push(v[v.len() - 2]);
        r.push(v[v.len() - 1]);
        assert(r@ =~= spec_thousands(v@));
        r
    }
}

/// A copy of a character vector.
pub fn clone_chars(v: &Vec<char>) -> (r: Vec<char>)
    ensures
        r@ == v@,
{
    let mut r: Vec<char> = Vec::new();
    let n = v.len();
    for i in 0..n
        invariant
            n == v@.len(),
            r@ == v@.take(i as int),
    {
        r.push(v[i]);
        assert(r@ =~= v@.take(i + 1));
    }
    assert(r@ =~= v@);
    r
}

/// A power of two below 128 bits is a left-shifted one.
pub proof fn lemma_pow2_shift128(k: u32)
    requires
        k < 128,
    ensures
        pow2(k as nat) == (1u128 << k),
    decreases k,
{
    if k == 0 {
        assert((1u128 << 0u32) == 1) by (bit_vector);
    } else {
        let j = (k - 1) as u32;
        lemma_pow2_shift128(j);
        assert((1u128 << k) == 2 * (1u128 << j)) by (bit_vector)
            requires
                1 <= k < 128 && j == k - 1,
        ;
    }
}

/// Decimal digits of a 128-bit value, most significant first.
pub fn u128_to_dec(n: u128) -> (r: Vec<char>)
    ensures
        r@ == spec_digits(n as nat),
    decreases n,
{
    if n < 10 {
        let mut r: Vec<char> = Vec::new();
        r.push(digit_to_char((n % 10) as u64));
        assert(r@ =~= spec_digits(n as nat));
        r
    } else {
        let mut r = u128_to_dec(n / 10);
        r.push(digit_to_char((n % 10) as u64));
        assert(r@ =~= spec_digits(n as nat));
        r
    }
}

/// The value of byte digits, most significant first.
pub open spec fn val8_msb(s: Seq<u8>) -> nat
    decreases s.len(),
{
    if s.len() == 0 {
        0nat
    } else {
        (10 * val8_msb(s.drop_last()) + s.last()) as nat
    }
}

/// The value of byte digits, least significant first.
pub open spec fn val8_lsb(s: Seq<u8>) -> nat
    decreases s.len(),
{
    if s.len() == 0 {
        0nat
    } else {
        (s[0] + 10 * val8_lsb(s.skip(1))) as nat
    }
}

/// Reversal swaps the two readings.
proof fn lemma_val8_reverse(s: Seq<u8>)
    ensures
        val8_msb(s.reverse()) == val8_lsb(s),
    decreases s.len(),
{
    if s.len() > 0 {
        lemma_val8_reverse(s.skip(1));
        assert(s.reverse().drop_last() =~= s.skip(1).reverse());
        assert(s.reverse().last() == s[0]);
    }
}

/// The digit characters of byte digits.
pub open spec fn digit_seq_chars(d: Seq<u8>) -> Seq<char> {
    d.map_values(|x: u8| digit_char(x as int))
}

/// A digit character comes back from its value.
proof fn lemma_digit_roundtrip(c: char)
    requires
        is_digit(c),
    ensures
        0 <= digit_value(c) <= 9,
        digit_char(digit_value(c) as int) == c,
{
    lemma_digit_char_value(digit_value(c) as int);
}

/// Reading the characters of byte digits gives their value.
proof fn lemma_digits_value_map(d: Seq<u8>)
    requires
        forall|i: int| 0 <= i < d.len() ==> #[trigger] d[i] < 10,
    ensures
        digits_value(digit_seq_chars(d)) == val8_msb(d),
    decreases d.len(),
{
    if d.len() > 0 {
        lemma_digits_value_map(d.drop_last());
        assert(digit_seq_chars(d).drop_last() =~= digit_seq_chars(d.drop_last()));
        assert(digit_seq_chars(d).last() == digit_char(d.last() as int));
        lemma_digit_char_value(d.last() as int);
    }
}

/// A nonzero-led digit string has a positive value.
proof fn lemma_val8_pos(d: Seq<u8>)
    requires
        d.len() >= 1,
        d[0] >= 1,
    ensures
        val8_msb(d) >= 1,
    decreases d.len(),
{
    if d.len() > 1 {
        lemma_val8_pos(d.drop_last());
        assert(d.drop_last()[0] == d[0]);
    }
}

/// Well-formed byte digits render exactly as `spec_digits` of their value.
proof fn lemma_spec_digits_of_val(d: Seq<u8>)
    requires
        forall|i: int| 0 <= i < d.len() ==> #[trigger] d[i] < 10,
        d.len() >= 1,
        d.len() > 1 ==> d[0] != 0,
    ensures
        digit_seq_chars(d) == spec_digits(val8_msb(d)),
    decreases d.len(),
{
    let v = val8_msb(d);
    if d.len() == 1 {
        assert(d.drop_last() =~= Seq::<u8>::empty());
        assert(val8_msb(Seq::<u8>::empty()) == 0);
        assert(val8_msb(d) == (10 * val8_msb(d.drop_last()) + d.last()) as nat);
        assert(d.last() == d[0]);
        assert(v == d[0]);
        assert(digit_seq_chars(d) =~= seq![digit_char(d[0] as int)]);
    } else {
        let h = d.drop_last();
        assert(h[0] == d[0]);
        lemma_val8_pos(h);
        assert(v == 10 * val8_msb(h) + d.last());
        assert(v >= 10);
        assert(v / 10 == val8_msb(h) && v % 10 == d.last()) by (nonlinear_arith)
            requires
                v == 10 * val8_msb(h) + d.last() && d.last() < 10,
        ;
        lemma_spec_digits_of_val(h);
        assert(digit_seq_chars(d) =~= digit_seq_chars(h).push(digit_char(d.last() as int)));
    }
}

/// Doubles least-significant-first byte digits from position `i` on, with
/// an incoming carry.
fn double_lsb(d: &Vec<u8>, i: usize, c: u8) -> (r: Vec<u8>)
    requires
        i <= d.len(),
        c <= 1,
        forall|j: int| 0 <= j < d@.len() ==> #[trigger] d@[j] < 10,
        d@.len() > 0 ==> d@.last() != 0,
    ensures
        forall|j: int| 0 <= j < r@.len() ==> #[trigger] r@[j] < 10,
        val8_lsb(r@) == 2 * val8_lsb(d@.skip(i as int)) + c,
        r@.len() >= d@.len() - i,
        i == d@.len() && c == 0 ==> r@.len() == 0,
        (i < d@.len() || c > 0) ==> (r@.len() > 0 && r@.last() != 0),
    decreases d.len() - i,
{
    if i == d.len() {
        let mut r: Vec<u8> = Vec::new();
        if c > 0 {
            r.push(c);
        }
        proof {
            assert(d@.skip(i as int) =~= Seq::<u8>::empty());
            if c > 0 {
                assert(r@.skip(1) =~= Seq::<u8>::empty());
            }
        }
        r
    } else {
        let t: u8 = 2 * d[i] + c;
        let rest = double_lsb(d, i + 1, t / 10);
        let mut r: Vec<u8> = Vec::new();
        r.push(t % 10);
        let mut rest_m = rest;
        r.append(&mut rest_m);
        proof {
            let tail = d@.skip(i as int);
            assert(tail[0] == d@[i as int]);
            assert(tail.skip(1) =~= d@.skip(i + 1));
            assert(r@.skip(1) =~= rest@);
            assert(r@[0] == t % 10);
            assert(val8_lsb(r@) == (t % 10) + 10 * val8_lsb(rest@));
            assert(val8_lsb(rest@) == 2 * val8_lsb(d@.skip(i + 1)) + t / 10);
            if i + 1 == d@.len() && t / 10 == 0 {
                assert(d@[i as int] == d@.last());
                assert(d@.len() > 0);
                assert(d@[i as int] >= 1);
                assert(t >= 2);
                assert(t <= 9);
                assert(t % 10 == t);
                assert(rest@.len() == 0);
                assert(r@.len() == 1);
                assert(r@.last() == t % 10);
                assert(r@.last() != 0);
            } else {
                assert(rest@.len() > 0 && rest@.last() != 0);
                assert(r@.last() == rest@.last());
            }
        }
        r
    }
}

/// Byte digits of the decimal digit characters.
fn chars_to_u8digits(v: &Vec<char>) -> (r: Vec<u8>)
    requires
        forall|i: int| 0 <= i < v@.len() ==> is_digit(#[trigger] v@[i]),
    ensures
        r@.len() == v@.len(),
        forall|i: int| 0 <= i < r@.len() ==> #[trigger] r@[i] < 10 && r@[i] == digit_value(v@[i]),
        digit_seq_chars(r@) == v@,
{
    let mut r: Vec<u8> = Vec::new();
    let n = v.len();
    for i in 0..n
        invariant
            n == v@.len(),
            r@.len() == i,
            forall|k: int| 0 <= k < v@.len() ==> is_digit(#[trigger] v@[k]),
            forall|k: int| 0 <= k < i ==> #[trigger] r@[k] < 10 && r@[k] == digit_value(v@[k]),
    {
        let c = v[i];
        proof {
            assert(is_digit(v@[i as int]));
        }
        r.push(((c as u32) - 48) as u8);
    }
    proof {
        assert forall|i: int| 0 <= i < r@.len() implies digit_seq_chars(r@)[i] == v@[i] by {
            lemma_digit_roundtrip(v@[i]);
        }
        assert(digit_seq_chars(r@) =~= v@);
    }
    r
}

/// The decimal digit characters of byte digits.
fn u8digits_to_chars(v: &Vec<u8>) -> (r: Vec<char>)
    requires
        forall|i: int| 0 <= i < v@.len() ==> #[trigger] v@[i] < 10,
    ensures
        r@ == digit_seq_chars(v@),
{
    let mut r: Vec<char> = Vec::new();
    let n = v.len();
    for i in 0..n
        invariant
            n == v@.len(),
            forall|k: int| 0 <= k < v@.len() ==> #[trigger] v@[k] < 10,
            r@ =~= digit_seq_chars(v@.take(i as int)),
    {
        r.push(digit_to_char(v[i] as u64));
        proof {
            assert(digit_seq_chars(v@.take(i + 1)) =~= digit_seq_chars(v@.take(i as int)).push(
                digit_char(v@[i as int] as int),
            ));
        }
    }
    proof {
        assert(v@.take(n as int) =~= v@);
    }
    r
}

/// A reversed copy of byte digits.
fn reverse_u8(v: &Vec<u8>) -> (r: Vec<u8>)
    ensures
        r@ == v@.reverse(),
{
    let mut r: Vec<u8> = Vec::new();
    let n = v.len();
    for i in 0..n
        invariant
            n == v@.len(),
            r@.len() == i,
            forall|k: int| 0 <= k < i ==> #[trigger] r@[k] == v@[n - 1 - k],
    {
        r.push(v[n - 1 - i]);
    }
    proof {
        assert(r@ =~= v@.reverse());
    }
    r
}

/// The decimal digits of 2^k, for any k up to the full address width.
pub fn pow2_dec_digits(k: u32) -> (r: Vec<char>)
    requires
        k <= 128,
    ensures
        r@ == spec_digits(pow2(k as nat)),
{
    if k <= 127 {
        proof {
            lemma_pow2_shift128(k);
        }
        u128_to_dec(1u128 << k)
    } else {
        proof {
            lemma_pow2_shift128(127);
        }
        let d = u128_to_dec(1u128 << 127);
        proof {
            lemma_spec_digits_value(pow2(127));
            lemma_pow2_pos(127);
        }
        let d8 = chars_to_u8digits(&d);
        proof {
            lemma_digits_value_map(d8@);
            assert(val8_msb(d8@) == pow2(127));
            // the leading digit of 2^127 is not zero
            assert(d@[0int] != '0');
            assert(d8@[0int] == digit_value(d@[0int]));
            assert(is_digit(d@[0int]));
            if d8@[0int] == 0 {
                lemma_digit_roundtrip(d@[0int]);
                assert(digit_char(0int) == '0');
                assert(false);
            }
        }
        let lsb = reverse_u8(&d8);
        proof {
            lemma_val8_reverse(lsb@);
            assert(lsb@.reverse() =~= d8@);
            assert(val8_lsb(lsb@) == pow2(127));
            assert(lsb@.last() == d8@[0int]);
            assert(forall|j: int| 0 <= j < lsb@.len() ==> #[trigger] lsb@[j] < 10) by {
                assert(forall|j: int|
                    0 <= j < lsb@.len() ==> lsb@[j] == #[trigger] d8@[lsb@.len() - 1 - j]);
            }
        }
        let doubled = double_lsb(&lsb, 0, 0);
        proof {
            assert(lsb@.skip(0) =~= lsb@);
            assert(val8_lsb(doubled@) == 2 * pow2(127));
            assert(2 * pow2(127) == pow2(128));
        }
        let msb = reverse_u8(&doubled);
        proof {
            lemma_val8_reverse(doubled@);
            assert(val8_msb(msb@) == pow2(128));
            assert(msb@[0int] == doubled@.last());
            assert(msb@.len() == doubled@.len() >= 1);
            assert(forall|j: int| 0 <= j < msb@.len() ==> #[trigger] msb@[j] < 10) by {
                assert(forall|j: int|
                    0 <= j < msb@.len() ==> msb@[j] == #[trigger] doubled@[msb@.len() - 1 - j]);
            }
            lemma_spec_digits_of_val(msb@);
        }
        u8digits_to_chars(&msb)
    }
}

/// The character for one bit.
pub open spec fn bin_char(b: int) -> char {
    if b == 1 {
        '1'
    } else {
        '0'
    }
}

/// The binary rendering of a value in exactly `w` bits, most significant
/// first.
pub open spec fn spec_bits(v: nat, w: nat) -> Seq<char>
    decreases w,
{
    if w == 0 {
        Seq::<char>::empty()
    } else {
        spec_bits(v / 2, (w - 1) as nat).push(bin_char((v % 2) as int))
    }
}

pub proof fn lemma_spec_bits_len(v: nat, w: nat)
    ensures
        spec_bits(v, w).len() == w,
    decreases w,
{
    if w > 0 {
        lemma_spec_bits_len(v / 2, (w - 1) as nat);
    }
}

/// The binary rendering, as characters.
pub fn bits_fixed(v: u64, w: u32) -> (r: Vec<char>)
    ensures
        r@ == spec_bits(v as nat, w as nat),
        r@.len() == w,
    decreases w,
{
    proof {
        lemma_spec_bits_len(v as nat, w as nat);
    }
    if w == 0 {
        let r: Vec<char> = Vec::new();
        assert(r@ =~= spec_bits(v as nat, 0));
        r
    } else {
        let mut r = bits_fixed(v / 2, w - 1);
        r.push(if v % 2 == 1 {
            '1'
        } else {
            '0'
        });
        assert(r@ =~= spec_bits(v as nat, w as nat));
        r
    }
}

/// The character for one lowercase hexadecimal digit.
pub open spec fn hex_char(d: int) -> char {
    seq!['0', '1', '2', '3', '4', '5', '6', '7', '8', '9', 'a', 'b', 'c', 'd', 'e', 'f'][d]
}

/// The lowercase hexadecimal rendering of a value in exactly `w` digits,
/// most significant first.
pub open spec fn spec_hex(v: nat, w: nat) -> Seq<char>
    decreases w,
{
    if w == 0 {
        Seq::<char>::empty()
    } else {
        spec_hex(v / 16, (w - 1) as nat).push(hex_char((v % 16) as int))
    }
}

fn hex_digit_to_char(d: u64) -> (c: char)
    requires
        d < 16,
    ensures
        c == hex_char(d as int),
{
    let chars: [char; 16] = [
        '0',
        '1',
        '2',
        '3',
        '4',
        '5',
        '6',
        '7',
        '8',
        '9',
        'a',
        'b',
        'c',
        'd',
        'e',
        'f',
    ];
    chars[d as usize]
}

/// The zero-padded lowercase hexadecimal rendering, as characters.
pub fn hex_fixed(v: u64, w: u32) -> (r: Vec<char>)
    ensures
        r@ == spec_hex(v as nat, w as nat),
    decreases w,
{
    if w == 0 {
        let r: Vec<char> = Vec::new();
        assert(r@ =~= spec_hex(v as nat, 0));
        r
    } else {
        let mut r = hex_fixed(v / 16, w - 1);
        r.push(hex_digit_to_char(v % 16));
        assert(r@ =~= spec_hex(v as nat, w as nat));
        r
    }
}

/// The value a digit sequence denotes, most significant digit first.
pub open spec fn digits_value(s: Seq<char>) -> nat
    decreases s.len(),
{
    if s.len() == 0 {
        0nat
    } else {
        10 * digits_value(s.drop_last()) + digit_value(s.last())
    }
}

/// `spec_digits` really renders the value it was given.
pub proof fn lemma_spec_digits_value(n: nat)
    ensures
        digits_value(spec_digits(n)) == n,
        spec_digits(n).len() >= 1,
        forall|i: int|
            0 <= i < spec_digits(n).len() ==> is_digit(#[trigger] spec_digits(n)[i]),
        n >= 10 ==> spec_digits(n)[0] != '0',
        n < 10 ==> spec_digits(n) =~= seq![digit_char(n as int)],
    decreases n,
{
    if n < 10 {
        lemma_digit_char_value(n as int);
        assert(spec_digits(n) =~= seq![digit_char(n as int)]);
        assert(spec_digits(n).drop_last() =~= Seq::<char>::empty());
        assert(digits_value(spec_digits(n)) == 10 * digits_value(Seq::<char>::empty())
            + digit_value(digit_char(n as int)));
    } else {
        lemma_spec_digits_value(n / 10);
        lemma_digit_char_value((n % 10) as int);
        let s = spec_digits(n);
        assert(s.drop_last() =~= spec_digits(n / 10));
        assert(s.last() == digit_char((n % 10) as int));
        assert(s[0] == spec_digits(n / 10)[0]);
        if spec_digits(n / 10)[0] == '0' {
            assert(n / 10 < 10);
            assert(spec_digits(n / 10) =~= seq![digit_char((n / 10) as int)]);
            lemma_digit_char_value((n / 10) as int);
            assert(digit_value('0') == 0);
            assert(n / 10 == 0);
            assert(false);
        }
    }
}

} // verus!
