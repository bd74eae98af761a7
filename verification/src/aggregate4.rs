//! Aggregation of free-form IPv4 entries (addresses, ranges, CIDR blocks)
//! into the canonical merged coverage, its exact CIDR decomposition, and the
//! minimal enclosing supernet with waste statistics.

use vstd::prelude::*;
use vstd::string::StringExecFns;

use crate::addr4::{
    format_ipv4, mask_for_prefix, parse_ipv4, spec_mask32, spec_parse_ipv4, spec_ipv4_text,
};
use crate::arith::{pow2, pow2_u64, spec_digits, u64_to_dec, clone_chars};
use crate::blocks4::{
    spec_greedy_blocks, spec_cidr_text, spec_lz32, range_to_cidrs, supernet_of, cidr_block_text,
    CidrBlock,
};
use crate::error::{spec_error_text, AddrError};
use crate::ranges::{
    all_wf, canonical, covers, lemma_canonical_ordered, lemma_covers_multiset, merge_ranges,
    sort_ranges, wf_range, IpRange,
};
use crate::text::{
    contains_char, chars_to_string, has_char, parse_uint, split_char,
    split_on, spec_parse_uint, spec_trim, str_to_chars, trim_chars,
};

verus! {

/// The outcome of aggregating a list of entries.
#[derive(Debug)]
pub struct Ipv4AggregateResult {
    pub normalized_inputs: Vec<String>,
    pub precise_summary: Vec<String>,
    pub approximate_summary: String,
    pub non_precise_summary: NonPreciseSummary,
    pub errors: Vec<String>,
}

/// The minimal supernet and how many addresses it wastes. The waste
/// percentage is `100 * extra_addresses / total_addresses`, left to display
/// layers since it is not integral.
#[derive(Debug)]
pub struct NonPreciseSummary {
    pub cidr: String,
    pub total_addresses: u64,
    pub input_addresses: u64,
    pub extra_addresses: u64,
}

/// Parsing of one trimmed CIDR entry: `address/prefix`, normalized to the
/// full block it names.
pub open spec fn spec_parse_cidr_entry(t: Seq<char>) -> Result<(IpRange, Seq<char>), AddrError> {
    let parts = split_on(t, '/');
    if parts.len() != 2 {
        Err(AddrError::InvalidFormat)
    } else {
        match spec_parse_ipv4(spec_trim(parts[0])) {
            None => Err(AddrError::InvalidAddress),
            Some(ip) => match spec_parse_uint(spec_trim(parts[1]), 0xffff_ffff) {
                None => Err(AddrError::InvalidPrefix),
                Some(p) => if p > 32 {
                    Err(AddrError::InvalidPrefix)
                } else {
                    let start = ip & spec_mask32(p as u32);
                    let end = start | !spec_mask32(p as u32);
                    Ok(
                        (
                            IpRange { start, end },
                            spec_ipv4_text(start) + seq!['/'] + spec_digits(p),
                        ),
                    )
                },
            },
        }
    }
}

/// Parsing of one trimmed range entry: `start-end`, where the end is a full
/// address or a bare final octet standing for "same first three octets".
pub open spec fn spec_parse_range_entry(t: Seq<char>) -> Result<(IpRange, Seq<char>), AddrError> {
    let parts = split_on(t, '-');
    if parts.len() != 2 {
        Err(AddrError::InvalidFormat)
    } else {
        match spec_parse_ipv4(spec_trim(parts[0])) {
            None => Err(AddrError::InvalidAddress),
            Some(s) => {
                let endtxt = spec_trim(parts[1]);
                let end_opt = if contains_char(endtxt, '.') {
                    spec_parse_ipv4(endtxt)
                } else {
                    match spec_parse_uint(endtxt, 255) {
                        Some(v) => Some((s & 0xffff_ff00) | v as u32),
                        None => None,
                    }
                };
                match end_opt {
                    None => Err(AddrError::InvalidAddress),
                    Some(e) => if e < s {
                        Err(AddrError::RangeOrder)
                    } else {
                        Ok(
                            (
                                IpRange { start: s, end: e },
                                spec_ipv4_text(s) + " - "@ + spec_ipv4_text(e),
                            ),
                        )
                    },
                }
            },
        }
    }
}

/// Parsing of one trimmed single-address entry.
pub open spec fn spec_parse_single_entry(t: Seq<char>) -> Result<(IpRange, Seq<char>), AddrError> {
    match spec_parse_ipv4(t) {
        None => Err(AddrError::InvalidAddress),
        Some(ip) => Ok((IpRange { start: ip, end: ip }, spec_ipv4_text(ip))),
    }
}

/// Classification of one trimmed entry, checked in order: a `/` makes it a
/// CIDR, else a `-` makes it a range, else it is a single address.
pub open spec fn spec_parse_entry(t: Seq<char>) -> Result<(IpRange, Seq<char>), AddrError> {
    if contains_char(t, '/') {
        spec_parse_cidr_entry(t)
    } else if contains_char(t, '-') {
        spec_parse_range_entry(t)
    } else {
        spec_parse_single_entry(t)
    }
}

/// The whole batch, processed in order: blank entries skipped, parsed
/// ranges and canonical texts collected, failures gathered as
/// `entry -> message` lines.
pub open spec fn spec_collect(items: Seq<Seq<char>>) -> (Seq<IpRange>, Seq<Seq<char>>, Seq<
    Seq<char>,
>)
    decreases items.len(),
{
    if items.len() == 0 {
        (Seq::<IpRange>::empty(), Seq::<Seq<char>>::empty(), Seq::<Seq<char>>::empty())
    } else {
        let prev = spec_collect(items.drop_last());
        let t = spec_trim(items.last());
        if t.len() == 0 {
            prev
        } else {
            match spec_parse_entry(t) {
                Ok(pair) => (prev.0.push(pair.0), prev.1.push(pair.1), prev.2),
                Err(e) => (prev.0, prev.1, prev.2.push(t + " -> "@ + spec_error_text(e))),
            }
        }
    }
}

/// The minimal enclosing supernet of the whole span.
pub open spec fn spec_supernet(s: u32, e: u32) -> CidrBlock {
    let p = spec_lz32(s ^ e);
    CidrBlock { network: s & spec_mask32(p as u32), prefix: p as u32 }
}

/// The CIDR texts of the greedy decomposition of every merged range, in
/// order.
pub open spec fn spec_precise_texts(m: Seq<IpRange>) -> Seq<Seq<char>>
    decreases m.len(),
{
    if m.len() == 0 {
        Seq::<Seq<char>>::empty()
    } else {
        spec_greedy_blocks(m[0].start, m[0].end).map_values(|b: CidrBlock| spec_cidr_text(b))
            + spec_precise_texts(m.skip(1))
    }
}

/// The number of addresses the merged ranges hold.
pub open spec fn spec_input_sum(m: Seq<IpRange>) -> int
    decreases m.len(),
{
    if m.len() == 0 {
        0int
    } else {
        (m[0].end - m[0].start + 1) + spec_input_sum(m.skip(1))
    }
}

/// Every field of the aggregation result, relative to the canonical merged
/// coverage `m` of the parsed ranges `rs`.
pub open spec fn aggregate_matches(
    out: Ipv4AggregateResult,
    m: Seq<IpRange>,
    rs: Seq<IpRange>,
    ns: Seq<Seq<char>>,
    es: Seq<Seq<char>>,
) -> bool {
    let sup = spec_supernet(m[0].start, m.last().end);
    let total = pow2((32 - sup.prefix) as nat);
    let input = spec_input_sum(m);
    &&& canonical(m)
    &&& m.len() >= 1
    &&& forall|x: u32| covers(m, x) == covers(rs, x)
    &&& out.normalized_inputs.deep_view() == ns
    &&& out.errors.deep_view() == es
    &&& out.precise_summary.deep_view() == spec_precise_texts(m)
    &&& out.approximate_summary@ == spec_cidr_text(sup)
    &&& out.non_precise_summary.cidr@ == spec_cidr_text(sup)
    &&& out.non_precise_summary.total_addresses == total
    &&& out.non_precise_summary.input_addresses == input
    &&& out.non_precise_summary.extra_addresses == if input > total {
        0int
    } else {
        total - input
    }
}

/// Parses one trimmed, non-empty entry.
pub fn parse_entry(t: &Vec<char>) -> (r: Result<(IpRange, String), AddrError>)
    ensures
        match r {
            Ok(pair) => spec_parse_entry(t@) matches Ok(sp) && sp.0 == pair.0 && sp.1 == pair.1@
                && wf_range(pair.0),
            Err(e) => spec_parse_entry(t@) == Err::<(IpRange, Seq<char>), AddrError>(e),
        },
{
    if has_char(t, '/') {
        parse_cidr(t)
    } else if has_char(t, '-') {
        parse_range(t)
    } else {
        parse_single(t)
    }
}

/// Parses a CIDR entry and normalizes it to its full block.
fn parse_cidr(t: &Vec<char>) -> (r: Result<(IpRange, String), AddrError>)
    requires
        contains_char(t@, '/'),
    ensures
        match r {
            Ok(pair) => spec_parse_cidr_entry(t@) matches Ok(sp) && sp.0 == pair.0 && sp.1
                == pair.1@ && wf_range(pair.0),
            Err(e) => spec_parse_cidr_entry(t@) == Err::<(IpRange, Seq<char>), AddrError>(e),
        },
{
    let parts = split_char(t, '/');
    if parts.len() != 2 {
        return Err(AddrError::InvalidFormat);
    }
    proof {
        assert(parts[0]@ =~= split_on(t@, '/')[0]);
        assert(parts[1]@ =~= split_on(t@, '/')[1]);
    }
    let p0 = trim_chars(&parts[0]);
    let p1 = trim_chars(&parts[1]);
    let ip = match parse_ipv4(&p0) {
        Some(x) => x,
        None => {
            return Err(AddrError::InvalidAddress);
        },
    };
    let prefix64 = match parse_uint(&p1, 0xffff_ffff) {
        Some(x) => x,
        None => {
            return Err(AddrError::InvalidPrefix);
        },
    };
    if prefix64 > 32 {
        return Err(AddrError::InvalidPrefix);
    }
    let prefix = prefix64 as u32;
    let mask = mask_for_prefix(prefix);
    let start = ip & mask;
    let end = start | !mask;
    proof {
        crate::addr4::lemma_subnet_bounds(ip, prefix);
    }
    let mut text = format_ipv4(start);
    text.push('/');
    let mut d = u64_to_dec(prefix as u64);
    text.append(&mut d);
    proof {
        assert(text@ =~= spec_ipv4_text(start) + seq!['/'] + spec_digits(prefix64 as nat));
    }
    Ok((IpRange { start, end }, chars_to_string(&text)))
}

/// Parses a range entry, full or shorthand.
fn parse_range(t: &Vec<char>) -> (r: Result<(IpRange, String), AddrError>)
    requires
        contains_char(t@, '-'),
    ensures
        match r {
            Ok(pair) => spec_parse_range_entry(t@) matches Ok(sp) && sp.0 == pair.0 && sp.1
                == pair.1@ && wf_range(pair.0),
            Err(e) => spec_parse_range_entry(t@) == Err::<(IpRange, Seq<char>), AddrError>(e),
        },
{
    let parts = split_char(t, '-');
    if parts.len() != 2 {
        return Err(AddrError::InvalidFormat);
    }
    proof {
        assert(parts[0]@ =~= split_on(t@, '-')[0]);
        assert(parts[1]@ =~= split_on(t@, '-')[1]);
    }
    let p0 = trim_chars(&parts[0]);
    let p1 = trim_chars(&parts[1]);
    let start = match parse_ipv4(&p0) {
        Some(x) => x,
        None => {
            return Err(AddrError::InvalidAddress);
        },
    };
    let end: u32 = if has_char(&p1, '.') {
        match parse_ipv4(&p1) {
            Some(x) => x,
            None => {
                return Err(AddrError::InvalidAddress);
            },
        }
    } else {
        match parse_uint(&p1, 255) {
            Some(v) => (start & 0xffff_ff00) | (v as u32),
            None => {
                return Err(AddrError::InvalidAddress);
            },
        }
    };
    if end < start {
        return Err(AddrError::RangeOrder);
    }
    let mut text = format_ipv4(start);
    let mut mid = str_to_chars(" - ");
    text.append(&mut mid);
    let mut endtext = format_ipv4(end);
    text.append(&mut endtext);
    proof {
        assert(text@ =~= spec_ipv4_text(start) + " - "@ + spec_ipv4_text(end));
    }
    Ok((IpRange { start, end }, chars_to_string(&text)))
}

/// Parses a single-address entry.
fn parse_single(t: &Vec<char>) -> (r: Result<(IpRange, String), AddrError>)
    ensures
        match r {
            Ok(pair) => spec_parse_single_entry(t@) matches Ok(sp) && sp.0 == pair.0 && sp.1
                == pair.1@ && wf_range(pair.0),
            Err(e) => spec_parse_single_entry(t@) == Err::<(IpRange, Seq<char>), AddrError>(e),
        },
{
    match parse_ipv4(t) {
        Some(ip) => Ok((IpRange { start: ip, end: ip }, chars_to_string(&format_ipv4(ip)))),
        None => Err(AddrError::InvalidAddress),
    }
}

/// A canonical coverage never holds more addresses than its span.
proof fn lemma_canonical_sum(m: Seq<IpRange>)
    requires
        canonical(m),
        m.len() >= 1,
    ensures
        spec_input_sum(m) <= m.last().end - m[0].start + 1,
        spec_input_sum(m) >= 1,
    decreases m.len(),
{
    if m.len() == 1 {
        assert(m.skip(1) =~= Seq::<IpRange>::empty());
        assert(spec_input_sum(m.skip(1)) == 0);
        assert(wf_range(m[0]));
        assert(m.last() == m[0]);
    } else {
        let t = m.skip(1);
        crate::ranges::lemma_canonical_skip(m);
        lemma_canonical_sum(t);
        assert(t.last() == m.last());
        assert(t[0int] == m[1int]);
        assert(m[0int + 1].start > m[0int].end + 1);
        assert(wf_range(m[0]));
        assert(spec_input_sum(m) == (m[0].end - m[0].start + 1) + spec_input_sum(t));
        assert(spec_input_sum(t) <= t.last().end - t[0].start + 1);
    }
}

/// A prefix of a canonical coverage is canonical.
proof fn lemma_canonical_take(m: Seq<IpRange>, k: int)
    requires
        canonical(m),
        0 <= k <= m.len(),
    ensures
        canonical(m.take(k)),
{
    let t = m.take(k);
    assert forall|i: int| 0 <= i < t.len() implies wf_range(#[trigger] t[i]) by {
        assert(t[i] == m[i]);
        assert(wf_range(m[i]));
    }
    assert forall|i: int| 0 <= i < t.len() - 1 implies #[trigger] t[i + 1].start > t[i].end + 1 by {
        assert(t[i + 1] == m[i + 1] && t[i] == m[i]);
        assert(m[i + 1].start > m[i].end + 1);
    }
}

/// The waste statistics of the merged coverage under its minimal supernet.
pub fn calculate_non_precise_summary(merged: &Vec<IpRange>) -> (r: NonPreciseSummary)
    requires
        canonical(merged@),
        merged@.len() >= 1,
    ensures
        ({
            let sup = spec_supernet(merged@[0].start, merged@.last().end);
            let total = pow2((32 - sup.prefix) as nat);
            let input = spec_input_sum(merged@);
            &&& r.cidr@ == spec_cidr_text(sup)
            &&& r.total_addresses == total
            &&& r.input_addresses == input
            &&& r.extra_addresses == if input > total {
                0int
            } else {
                total - input
            }
        }),
{
    proof {
        lemma_canonical_ordered(merged@);
        assert(wf_range(merged@[0]));
        assert(wf_range(merged@.last()));
        if merged@.len() > 1 {
            assert(merged@.last().start > merged@[0].end + 1);
        }
    }
    let start = merged[0].start;
    let end = merged[merged.len() - 1].end;
    let (network, prefix) = supernet_of(start, end);
    let cidr = cidr_block_text(&CidrBlock { network, prefix });
    let total_addresses: u64 = pow2_u64(32 - prefix);
    let mut input_addresses: u64 = 0;
    let n = merged.len();
    let mut k: usize = 0;
    while k < n
        invariant
            n == merged@.len() >= 1,
            0 <= k <= n,
            canonical(merged@),
            input_addresses == spec_input_sum(merged@.take(k as int)),
            input_addresses <= 0x1_0000_0000,
        decreases n - k,
    {
        proof {
            assert(wf_range(merged@[k as int]));
            lemma_canonical_take(merged@, k + 1);
            lemma_canonical_sum_take(merged@, k + 1);
        }
        let rg = merged[k];
        input_addresses = input_addresses + ((rg.end as u64) - (rg.start as u64) + 1);
        proof {
            assert(merged@.take(k + 1).drop_last() =~= merged@.take(k as int));
            lemma_input_sum_push(merged@.take(k + 1));
        }
        k = k + 1;
    }
    proof {
        assert(merged@.take(n as int) =~= merged@);
    }
    let extra_addresses: u64 = if input_addresses > total_addresses {
        0
    } else {
        total_addresses - input_addresses
    };
    NonPreciseSummary { cidr, total_addresses, input_addresses, extra_addresses }
}

/// The sum over a prefix stays within the 32-bit address space.
proof fn lemma_canonical_sum_take(m: Seq<IpRange>, k: int)
    requires
        canonical(m),
        1 <= k <= m.len(),
    ensures
        spec_input_sum(m.take(k)) <= 0x1_0000_0000,
{
    lemma_canonical_take(m, k);
    lemma_canonical_sum(m.take(k));
    assert(wf_range(m.take(k)[0]));
}

/// The sum unfolds over the last element.
proof fn lemma_input_sum_push(m: Seq<IpRange>)
    requires
        m.len() >= 1,
    ensures
        spec_input_sum(m) == spec_input_sum(m.drop_last()) + (m.last().end - m.last().start + 1),
    decreases m.len(),
{
    if m.len() == 1 {
        assert(m.skip(1) =~= Seq::<IpRange>::empty());
        assert(m.drop_last() =~= Seq::<IpRange>::empty());
    } else {
        lemma_input_sum_push(m.skip(1));
        assert(m.skip(1).drop_last() =~= m.drop_last().skip(1));
        assert(m.skip(1).last() == m.last());
        assert(m.drop_last()[0] == m[0]);
    }
}

/// Parses the batch: skips blanks, collects parsed ranges, canonical texts
/// and failure lines, in input order.
fn collect_entries(items: &Vec<String>) -> (r: (Vec<IpRange>, Vec<String>, Vec<String>))
    ensures
        r.0@ == spec_collect(items.deep_view()).0,
        r.1.deep_view() == spec_collect(items.deep_view()).1,
        r.2.deep_view() == spec_collect(items.deep_view()).2,
        all_wf(r.0@),
{
    let ghost all = items.deep_view();
    let mut ranges: Vec<IpRange> = Vec::new();
    let mut normalized_inputs: Vec<String> = Vec::new();
    let mut errors: Vec<String> = Vec::new();
    let n = items.len();
    proof {
        assert(all.take(0) =~= Seq::<Seq<char>>::empty());
        assert(ranges@ =~= spec_collect(all.take(0)).0);
        assert(normalized_inputs.deep_view() =~~= spec_collect(all.take(0)).1);
        assert(errors.deep_view() =~~= spec_collect(all.take(0)).2);
    }
    let mut k: usize = 0;
    while k < n
        invariant
            n == items@.len(),
            all == items.deep_view(),
            all.len() == n,
            0 <= k <= n,
            ranges@ == spec_collect(all.take(k as int)).0,
            normalized_inputs.deep_view() == spec_collect(all.take(k as int)).1,
            errors.deep_view() == spec_collect(all.take(k as int)).2,
            all_wf(ranges@),
        decreases n - k,
    {
        let ghost prev = spec_collect(all.take(k as int));
        let chars = str_to_chars(items[k].as_str());
        let t = trim_chars(&chars);
        proof {
            assert(all[k as int] == items@[k as int]@);
            assert(all.take(k + 1).drop_last() =~= all.take(k as int));
            assert(all.take(k + 1).last() == all[k as int]);
        }
        if t.len() > 0 {
            match parse_entry(&t) {
                Ok(pair) => {
                    let (rg, canon) = pair;
                    ranges.push(rg);
                    normalized_inputs.push(canon);
                    proof {
                        assert(ranges@ =~= prev.0.push(rg));
                        assert(normalized_inputs.deep_view() =~~= prev.1.push(canon@));
                        assert(errors.deep_view() =~~= prev.2);
                    }
                },
                Err(e) => {
                    let mut line = clone_chars(&t);
                    let mut mid = str_to_chars(" -> ");
                    line.append(&mut mid);
                    let mut msg = str_to_chars(e.message().as_str());
                    line.append(&mut msg);
                    errors.push(chars_to_string(&line));
                    proof {
                        assert(line@ =~= spec_trim(all[k as int]) + " -> "@ + spec_error_text(e));
                        assert(errors.deep_view() =~~= prev.2.push(
                            spec_trim(all[k as int]) + " -> "@ + spec_error_text(e),
                        ));
                        assert(ranges@ =~= prev.0);
                        assert(normalized_inputs.deep_view() =~~= prev.1);
                    }
                },
            }
        }
        k = k + 1;
    }
    proof {
        assert(all.take(n as int) =~= all);
    }
    (ranges, normalized_inputs, errors)
}

/// The CIDR texts of the decomposition of every merged range, in order.
fn build_precise_summary(merged: &Vec<IpRange>) -> (r: Vec<String>)
    requires
        canonical(merged@),
    ensures
        r.deep_view() == spec_precise_texts(merged@),
{
    let mut precise_summary: Vec<String> = Vec::new();
    let mcount = merged.len();
    proof {
        assert(merged@.take(0) =~= Seq::<IpRange>::empty());
        assert(precise_summary.deep_view() =~~= spec_precise_texts(merged@.take(0)));
    }
    let mut j: usize = 0;
    while j < mcount
        invariant
            mcount == merged@.len(),
            0 <= j <= mcount,
            canonical(merged@),
            precise_summary.deep_view() =~~= spec_precise_texts(merged@.take(j as int)),
        decreases mcount - j,
    {
        proof {
            assert(wf_range(merged@[j as int]));
        }
        let rg = merged[j];
        let mut texts = range_to_cidrs(rg.start, rg.end);
        precise_summary.append(&mut texts);
        proof {
            lemma_precise_texts_snoc(merged@, j as int);
            assert(precise_summary.deep_view() =~~= spec_precise_texts(merged@.take(j + 1)));
        }
        j = j + 1;
    }
    proof {
        assert(merged@.take(mcount as int) =~= merged@);
    }
    precise_summary
}

/// Aggregates a batch of entries: parses each, skips blanks, collects
/// failures, merges the parsed ranges, and derives the exact decomposition
/// and the minimal supernet. Fails only when no entry parsed.
pub fn aggregate_ipv4(items: Vec<String>) -> (res: Result<Ipv4AggregateResult, String>)
    ensures
        res is Ok ==> spec_collect(items.deep_view()).0.len() > 0,
        res is Ok ==> exists|m: Seq<IpRange>|
            #![trigger canonical(m)]
            aggregate_matches(
                res->Ok_0,
                m,
                spec_collect(items.deep_view()).0,
                spec_collect(items.deep_view()).1,
                spec_collect(items.deep_view()).2,
            ),
        res is Err ==> spec_collect(items.deep_view()).0.len() == 0,
        res is Err ==> (res->Err_0)@ == "no aggregatable IPv4 entries"@,
{
    let ghost all = items.deep_view();
    let (ranges, normalized_inputs, errors) = collect_entries(&items);
    if ranges.len() == 0 {
        proof {
            assert(spec_collect(items.deep_view()).0.len() == 0);
        }
        let msg = String::from_str("no aggregatable IPv4 entries");
        proof {
            assert(msg@ == "no aggregatable IPv4 entries"@);
        }
        return Err(msg);
    }
    let ghost parsed = ranges@;
    let sorted = sort_ranges(ranges);
    proof {
        assert(all_wf(sorted@)) by {
            assert forall|i: int| 0 <= i < sorted@.len() implies wf_range(#[trigger] sorted@[i]) by {
                broadcast use vstd::seq_lib::group_to_multiset_ensures;

                assert(sorted@.contains(sorted@[i]));
                assert(sorted@.to_multiset().contains(sorted@[i]));
                assert(parsed.to_multiset().contains(sorted@[i]));
                assert(parsed.contains(sorted@[i]));
                let j = choose|j: int| 0 <= j < parsed.len() && parsed[j] == sorted@[i];
                assert(wf_range(parsed[j]));
            }
        }
    }
    let merged = merge_ranges(sorted);
    proof {
        assert forall|x: u32| covers(merged@, x) == covers(parsed, x) by {
            lemma_covers_multiset(sorted@, parsed, x);
        }
        lemma_canonical_ordered(merged@);
        assert(wf_range(merged@[0]));
        assert(wf_range(merged@.last()));
        if merged@.len() > 1 {
            assert(merged@.last().start > merged@[0].end + 1);
        }
    }
    let precise_summary = build_precise_summary(&merged);
    let mcount = merged.len();
    let start = merged[0].start;
    let end = merged[mcount - 1].end;
    let (network, prefix) = supernet_of(start, end);
    let approximate_summary = cidr_block_text(&CidrBlock { network, prefix });
    let non_precise_summary = calculate_non_precise_summary(&merged);
    let out = Ipv4AggregateResult {
        normalized_inputs,
        precise_summary,
        approximate_summary,
        non_precise_summary,
        errors,
    };
    proof {
        let collected = spec_collect(all);
        assert(aggregate_matches(out, merged@, collected.0, collected.1, collected.2));
        assert(collected.0.len() > 0);
        assert(exists|m: Seq<IpRange>|
            aggregate_matches(out, m, collected.0, collected.1, collected.2));
        assert(all == items.deep_view());
    }
    Ok(out)
}

/// The precise texts of one more merged range concatenate at the end.
proof fn lemma_precise_texts_snoc(m: Seq<IpRange>, j: int)
    requires
        0 <= j < m.len(),
    ensures
        spec_precise_texts(m.take(j + 1)) == spec_precise_texts(m.take(j)) + spec_greedy_blocks(
            m[j].start,
            m[j].end,
        ).map_values(|b: CidrBlock| spec_cidr_text(b)),
    decreases j,
{
    if j == 0 {
        assert(m.take(1)[0] == m[0]);
        assert(m.take(1).skip(1) =~= Seq::<IpRange>::empty());
        assert(m.take(0) =~= Seq::<IpRange>::empty());
        assert(spec_precise_texts(m.take(1)) =~~= spec_precise_texts(m.take(0))
            + spec_greedy_blocks(m[0].start, m[0].end).map_values(
            |b: CidrBlock| spec_cidr_text(b),
        ));
    } else {
        lemma_precise_texts_snoc(m.skip(1), j - 1);
        assert(m.take(j + 1)[0] == m[0]);
        assert(m.take(j + 1).skip(1) =~= m.skip(1).take(j));
        assert(m.take(j).skip(1) =~= m.skip(1).take(j - 1));
        assert(m.take(j)[0] == m[0]);
        assert(m.skip(1)[j - 1] == m[j]);
        assert(spec_precise_texts(m.take(j + 1)) =~~= spec_precise_texts(m.take(j))
            + spec_greedy_blocks(m[j].start, m[j].end).map_values(
            |b: CidrBlock| spec_cidr_text(b),
        ));
    }
}

} // verus!
