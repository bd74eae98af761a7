//! Carrier (ISP) range bookkeeping: classifying addresses against CIDR
//! range lists and managing the elastic-address map, as pure functions
//! over the loaded data.

use vstd::prelude::*;
use vstd::string::StringExecFns;

use crate::addr4::{
    format_ipv4, parse_ipv4, spec_network, spec_parse_ipv4, spec_ipv4_text,
};
use crate::error::AddrError;
use crate::text::{
    chars_eq_str, chars_to_string, split_char, split_on, spec_parse_uint,
    spec_trim, str_to_chars, trim_chars, parse_uint, };

verus! {

/// A request to map an internal address to an elastic one.
#[derive(Debug)]
pub struct ElasticIpMappingRequest {
    pub internal_ip: String,
    pub elastic_ip: String,
}

/// One entry of the elastic map.
#[derive(Debug)]
pub struct ElasticMappingEntry {
    pub internal_ip: String,
    pub elastic_ip: String,
}

/// The outcome of a bulk insertion.
#[derive(Debug)]
pub struct BulkElasticIpResult {
    pub added: usize,
    pub updated: usize,
    pub skipped: usize,
}

/// A bulk insertion request.
#[derive(Debug)]
pub struct BulkElasticIpRequest {
    pub entries: Vec<ElasticIpMappingRequest>,
    pub overwrite_existing: bool,
}

/// A scan request for the next free elastic address.
#[derive(Debug)]
pub struct NextAvailableElasticIpRequest {
    pub start_ip: String,
    pub scan_size: Option<u32>,
}

/// The scan outcome.
#[derive(Debug)]
pub struct NextAvailableElasticIpResponse {
    pub next_ip: Option<String>,
}

/// The per-carrier range counts of a data set.
#[derive(Debug)]
pub struct IspUpdateResult {
    pub dx_count: usize,
    pub lt_count: usize,
    pub yd_count: usize,
    pub other_count: usize,
    pub total: usize,
    pub saved_path: String,
}

/// A replacement data set, keyed by carrier.
#[derive(Debug)]
pub struct UpdateIspDataRequest {
    pub data: Vec<(String, Vec<String>)>,
}

/// Which carrier an address falls under, and through which range.
#[derive(Debug)]
pub struct DetectIspResponse {
    pub isp: Option<String>,
    pub matched_range: Option<String>,
}

/// How many ranges the pairs with the given key hold.
pub open spec fn spec_key_count(data: Seq<(Seq<char>, Seq<Seq<char>>)>, key: Seq<char>) -> int
    decreases data.len(),
{
    if data.len() == 0 {
        0int
    } else {
        spec_key_count(data.drop_last(), key) + if data.last().0 == key {
            data.last().1.len() as int
        } else {
            0int
        }
    }
}

/// How many ranges all pairs hold.
pub open spec fn spec_all_count(data: Seq<(Seq<char>, Seq<Seq<char>>)>) -> int
    decreases data.len(),
{
    if data.len() == 0 {
        0int
    } else {
        spec_all_count(data.drop_last()) + data.last().1.len()
    }
}

/// The deep view of loaded carrier data.
pub open spec fn data_view(data: Seq<(String, Vec<String>)>) -> Seq<(Seq<char>, Seq<Seq<char>>)> {
    data.map_values(|p: (String, Vec<String>)| (p.0@, p.1.deep_view()))
}

/// Counts the ranges of each carrier key.
pub fn summarize_isp_data(data: &Vec<(String, Vec<String>)>, saved_path: String) -> (r:
    IspUpdateResult)
    requires
        spec_all_count(data_view(data@)) <= usize::MAX,
    ensures
        r.dx_count == spec_key_count(data_view(data@), "DX"@),
        r.lt_count == spec_key_count(data_view(data@), "LT"@),
        r.yd_count == spec_key_count(data_view(data@), "YD"@),
        r.total == spec_all_count(data_view(data@)),
        r.other_count == r.total - r.dx_count - r.lt_count - r.yd_count,
        r.saved_path == saved_path,
{
    let ghost dv = data_view(data@);
    let mut dx_count: usize = 0;
    let mut lt_count: usize = 0;
    let mut yd_count: usize = 0;
    let mut other_count: usize = 0;
    let n = data.len();
    let mut k: usize = 0;
    while k < n
        invariant
            n == data@.len(),
            dv == data_view(data@),
            dv.len() == n,
            spec_all_count(dv) <= usize::MAX,
            0 <= k <= n,
            dx_count == spec_key_count(dv.take(k as int), "DX"@),
            lt_count == spec_key_count(dv.take(k as int), "LT"@),
            yd_count == spec_key_count(dv.take(k as int), "YD"@),
            dx_count + lt_count + yd_count + other_count == spec_all_count(dv.take(k as int)),
            other_count == spec_all_count(dv.take(k as int)) - spec_key_count(
                dv.take(k as int),
                "DX"@,
            ) - spec_key_count(dv.take(k as int), "LT"@) - spec_key_count(dv.take(k as int), "YD"@),
        decreases n - k,
    {
        proof {
            reveal_strlit("DX");
            reveal_strlit("LT");
            reveal_strlit("YD");
            assert("DX"@[0int] == 'D' && "LT"@[0int] == 'L' && "YD"@[0int] == 'Y');
            assert("DX"@ != "LT"@ && "DX"@ != "YD"@ && "LT"@ != "YD"@);
            assert(dv.take(k + 1).drop_last() =~= dv.take(k as int));
            assert(dv.take(k + 1).last() == dv[k as int]);
            assert(dv[k as int] == (data@[k as int].0@, data@[k as int].1.deep_view()));
            lemma_all_count_take(dv, k + 1);
            lemma_key_count_le(dv.take(k + 1), "DX"@);
            lemma_key_count_le(dv.take(k + 1), "LT"@);
            lemma_key_count_le(dv.take(k + 1), "YD"@);
        }
        let kc = str_to_chars(data[k].0.as_str());
        let count = data[k].1.len();
        if crate::text::chars_eq_str(&kc, "DX") {
            dx_count = dx_count + count;
        } else if crate::text::chars_eq_str(&kc, "LT") {
            lt_count = lt_count + count;
        } else if crate::text::chars_eq_str(&kc, "YD") {
            yd_count = yd_count + count;
        } else {
            other_count = other_count + count;
        }
        proof {
            assert(data@[k as int].1.deep_view().len() == data@[k as int].1@.len());
        }
        k = k + 1;
    }
    proof {
        assert(dv.take(n as int) =~= dv);
    }
    let total = dx_count + lt_count + yd_count + other_count;
    IspUpdateResult { dx_count, lt_count, yd_count, other_count, total, saved_path }
}

/// A prefix of the data counts no more than the whole.
proof fn lemma_all_count_take(d: Seq<(Seq<char>, Seq<Seq<char>>)>, k: int)
    requires
        0 <= k <= d.len(),
    ensures
        spec_all_count(d.take(k)) <= spec_all_count(d),
        spec_all_count(d.take(k)) >= 0,
    decreases d.len(),
{
    lemma_all_count_nonneg(d.take(k));
    if k < d.len() {
        lemma_all_count_take(d.drop_last(), k);
        assert(d.drop_last().take(k) =~= d.take(k));
        lemma_all_count_nonneg(d.drop_last());
    } else {
        assert(d.take(k) =~= d);
    }
}

proof fn lemma_all_count_nonneg(d: Seq<(Seq<char>, Seq<Seq<char>>)>)
    ensures
        spec_all_count(d) >= 0,
    decreases d.len(),
{
    if d.len() > 0 {
        lemma_all_count_nonneg(d.drop_last());
    }
}

/// A key's count never exceeds the total.
proof fn lemma_key_count_le(d: Seq<(Seq<char>, Seq<Seq<char>>)>, key: Seq<char>)
    ensures
        0 <= spec_key_count(d, key) <= spec_all_count(d),
    decreases d.len(),
{
    if d.len() > 0 {
        lemma_key_count_le(d.drop_last(), key);
    }
}

/// The carrier CIDR grammar: a dotted quad, `/`, and a prefix of at most
/// 32 by the standard byte grammar; whether the address falls in its block.
pub open spec fn spec_cidr_match(range: Seq<char>, ip: u32) -> bool {
    let parts = split_on(range, '/');
    &&& parts.len() == 2
    &&& spec_parse_ipv4(parts[0]) is Some
    &&& spec_parse_uint(parts[1], 255) matches Some(p) && p <= 32
    &&& spec_network(ip, spec_parse_uint(parts[1], 255)->0 as u32) == spec_network(
        spec_parse_ipv4(parts[0])->0,
        spec_parse_uint(parts[1], 255)->0 as u32,
    )
}

/// Tests one range expression against an address.
pub fn cidr_match(range: &Vec<char>, ip: u32) -> (r: bool)
    ensures
        r == spec_cidr_match(range@, ip),
{
    let parts = split_char(range, '/');
    proof {
        assert forall|k: int| 0 <= k < parts@.len() implies #[trigger] parts.deep_view()[k]
            == parts@[k]@ by {}
    }
    if parts.len() != 2 {
        return false;
    }
    let addr = match parse_ipv4(&parts[0]) {
        Some(x) => x,
        None => {
            return false;
        },
    };
    let p64 = match parse_uint(&parts[1], 255) {
        Some(x) => x,
        None => {
            return false;
        },
    };
    if p64 > 32 {
        return false;
    }
    let p = p64 as u32;
    let mask = crate::addr4::mask_for_prefix(p);
    (ip & mask) == (addr & mask)
}

/// The first matching range inside one carrier's list, or -1.
pub open spec fn first_range_match(ranges: Seq<Seq<char>>, ip: u32) -> int
    decreases ranges.len(),
{
    if ranges.len() == 0 {
        -1
    } else if spec_cidr_match(ranges[0], ip) {
        0
    } else {
        let r = first_range_match(ranges.skip(1), ip);
        if r < 0 {
            -1
        } else {
            r + 1
        }
    }
}

/// The first carrier pair holding a matching range, with that range.
pub open spec fn spec_find_isp(data: Seq<(Seq<char>, Seq<Seq<char>>)>, ip: u32) -> Option<
    (Seq<char>, Seq<char>),
>
    decreases data.len(),
{
    if data.len() == 0 {
        None
    } else if first_range_match(data[0].1, ip) >= 0 {
        Some((data[0].0, data[0].1[first_range_match(data[0].1, ip)]))
    } else {
        spec_find_isp(data.skip(1), ip)
    }
}

/// Finds the first matching range of one carrier.
fn find_range_match(ranges: &Vec<String>, ip: u32) -> (r: Option<usize>)
    ensures
        match r {
            Some(i) => first_range_match(ranges.deep_view(), ip) == i && i < ranges@.len(),
            None => first_range_match(ranges.deep_view(), ip) < 0,
        },
{
    proof {
        assert forall|k: int| 0 <= k < ranges@.len() implies #[trigger] ranges.deep_view()[k]
            == ranges@[k]@ by {}
    }
    let n = ranges.len();
    for i in 0..n
        invariant
            n == ranges@.len(),
            forall|k: int|
                0 <= k < ranges@.len() ==> #[trigger] ranges.deep_view()[k] == ranges@[k]@,
            forall|k: int| 0 <= k < i ==> !spec_cidr_match(#[trigger] ranges.deep_view()[k], ip),
    {
        let rc = str_to_chars(ranges[i].as_str());
        if cidr_match(&rc, ip) {
            proof {
                lemma_first_range_prefix(ranges.deep_view(), ip, i as int);
            }
            return Some(i);
        }
    }
    proof {
        lemma_first_range_none(ranges.deep_view(), ip);
    }
    None
}

proof fn lemma_first_range_prefix(rs: Seq<Seq<char>>, ip: u32, k: int)
    requires
        0 <= k < rs.len(),
        spec_cidr_match(rs[k], ip),
        forall|j: int| 0 <= j < k ==> !spec_cidr_match(#[trigger] rs[j], ip),
    ensures
        first_range_match(rs, ip) == k,
    decreases k,
{
    if k > 0 {
        assert forall|j: int|
            0 <= j < k - 1 implies !spec_cidr_match(#[trigger] rs.skip(1)[j], ip) by {
            assert(rs.skip(1)[j] == rs[j + 1]);
        }
        assert(rs.skip(1)[k - 1] == rs[k]);
        lemma_first_range_prefix(rs.skip(1), ip, k - 1);
    }
}

proof fn lemma_first_range_none(rs: Seq<Seq<char>>, ip: u32)
    requires
        forall|j: int| 0 <= j < rs.len() ==> !spec_cidr_match(#[trigger] rs[j], ip),
    ensures
        first_range_match(rs, ip) < 0,
    decreases rs.len(),
{
    if rs.len() > 0 {
        assert forall|j: int|
            0 <= j < rs.skip(1).len() implies !spec_cidr_match(#[trigger] rs.skip(1)[j], ip) by {
            assert(rs.skip(1)[j] == rs[j + 1]);
        }
        lemma_first_range_none(rs.skip(1), ip);
    }
}

/// Finds the carrier whose range list first matches the address, walking
/// the pairs in their stored order.
pub fn find_isp_for_ip(ip: u32, data: &Vec<(String, Vec<String>)>) -> (r: Option<(String, String)>)
    ensures
        match r {
            Some(pair) => spec_find_isp(data_view(data@), ip) matches Some(sp) && pair.0@ == sp.0
                && pair.1@ == sp.1,
            None => spec_find_isp(data_view(data@), ip) is None,
        },
{
    let ghost dv = data_view(data@);
    let n = data.len();
    proof {
        assert(dv.len() == n);
    }
    let mut k: usize = 0;
    while k < n
        invariant
            n == data@.len(),
            dv == data_view(data@),
            dv.len() == n,
            0 <= k <= n,
            forall|j: int| 0 <= j < k ==> first_range_match((#[trigger] dv[j]).1, ip) < 0,
        decreases n - k,
    {
        proof {
            assert(dv[k as int] == (data@[k as int].0@, data@[k as int].1.deep_view()));
        }
        match find_range_match(&data[k].1, ip) {
            Some(i) => {
                proof {
                    lemma_find_isp_at(dv, ip, k as int);
                    assert(data@[k as int].1.deep_view()[i as int] == data@[k as int].1@[i as int]@);
                }
                return Some((data[k].0.clone(), data[k].1[i].clone()));
            },
            None => {},
        }
        k = k + 1;
    }
    proof {
        lemma_find_isp_none(dv, ip);
    }
    None
}

proof fn lemma_find_isp_at(d: Seq<(Seq<char>, Seq<Seq<char>>)>, ip: u32, k: int)
    requires
        0 <= k < d.len(),
        first_range_match(d[k].1, ip) >= 0,
        forall|j: int| 0 <= j < k ==> first_range_match((#[trigger] d[j]).1, ip) < 0,
    ensures
        spec_find_isp(d, ip) == Some((d[k].0, d[k].1[first_range_match(d[k].1, ip)])),
    decreases k,
{
    if k > 0 {
        assert forall|j: int|
            0 <= j < k - 1 implies first_range_match((#[trigger] d.skip(1)[j]).1, ip) < 0 by {
            assert(d.skip(1)[j] == d[j + 1]);
        }
        assert(d.skip(1)[k - 1] == d[k]);
        lemma_find_isp_at(d.skip(1), ip, k - 1);
    }
}

proof fn lemma_find_isp_none(d: Seq<(Seq<char>, Seq<Seq<char>>)>, ip: u32)
    requires
        forall|j: int| 0 <= j < d.len() ==> first_range_match((#[trigger] d[j]).1, ip) < 0,
    ensures
        spec_find_isp(d, ip) is None,
    decreases d.len(),
{
    if d.len() > 0 {
        assert forall|j: int|
            0 <= j < d.skip(1).len() implies first_range_match((#[trigger] d.skip(1)[j]).1, ip)
            < 0 by {
            assert(d.skip(1)[j] == d[j + 1]);
        }
        lemma_find_isp_none(d.skip(1), ip);
    }
}

/// Classifies one address against the loaded carrier data.
pub fn detect_isp_info(ip: &str, data: &Vec<(String, Vec<String>)>) -> (r: Result<
    DetectIspResponse,
    AddrError,
>)
    ensures
        match r {
            Ok(out) => spec_parse_ipv4(spec_trim(ip@)) matches Some(a) && (match spec_find_isp(
                data_view(data@),
                a,
            ) {
                Some(sp) => out.isp matches Some(s) && s@ == sp.0 && (out.matched_range matches Some(
                    m,
                ) && m@ == sp.1),
                None => out.isp is None && out.matched_range is None,
            }),
            Err(e) => spec_parse_ipv4(spec_trim(ip@)) is None && e == AddrError::InvalidAddress,
        },
{
    let chars = str_to_chars(ip);
    let t = trim_chars(&chars);
    let a = match parse_ipv4(&t) {
        Some(x) => x,
        None => {
            return Err(AddrError::InvalidAddress);
        },
    };
    match find_isp_for_ip(a, data) {
        Some(pair) => Ok(
            DetectIspResponse { isp: Some(pair.0), matched_range: Some(pair.1) },
        ),
        None => Ok(DetectIspResponse { isp: None, matched_range: None }),
    }
}

/// Whether some value of the list parses to the given address.
pub open spec fn spec_used_contains(vals: Seq<Seq<char>>, x: u32) -> bool {
    exists|i: int| 0 <= i < vals.len() && spec_parse_ipv4(#[trigger] vals[i]) == Some(x)
}

/// Tests membership of an address among the used values.
fn used_contains(vals: &Vec<String>, x: u32) -> (r: bool)
    ensures
        r == spec_used_contains(vals.deep_view(), x),
{
    proof {
        assert forall|k: int| 0 <= k < vals@.len() implies #[trigger] vals.deep_view()[k]
            == vals@[k]@ by {}
    }
    let n = vals.len();
    for i in 0..n
        invariant
            n == vals@.len(),
            forall|k: int| 0 <= k < vals@.len() ==> #[trigger] vals.deep_view()[k] == vals@[k]@,
            forall|k: int|
                0 <= k < i ==> spec_parse_ipv4(#[trigger] vals.deep_view()[k]) != Some(x),
    {
        let vc = str_to_chars(vals[i].as_str());
        match parse_ipv4(&vc) {
            Some(ip) => {
                if ip == x {
                    proof {
                        assert(spec_parse_ipv4(vals.deep_view()[i as int]) == Some(x));
                    }
                    return true;
                }
            },
            None => {},
        }
    }
    proof {
        if spec_used_contains(vals.deep_view(), x) {
            let i = choose|i: int|
                0 <= i < vals.deep_view().len() && spec_parse_ipv4(
                    #[trigger] vals.deep_view()[i],
                ) == Some(x);
            assert(spec_parse_ipv4(vals.deep_view()[i]) != Some(x));
        }
    }
    false
}

/// Scans from the start address for the first candidate no used value
/// denotes, within the scan window and the address space.
pub fn get_next_available_elastic_ip(
    request: &NextAvailableElasticIpRequest,
    used_values: &Vec<String>,
) -> (r: Result<NextAvailableElasticIpResponse, AddrError>)
    ensures
        match r {
            Ok(out) => spec_parse_ipv4(spec_trim(request.start_ip@)) matches Some(start) && {
                let scan = spec_scan_size(request.scan_size);
                match out.next_ip {
                    Some(s) => exists|c: u32|
                        #![trigger spec_used_contains(used_values.deep_view(), c)]
                        start <= c && c - start < scan && s@ == spec_ipv4_text(c)
                            && !spec_used_contains(used_values.deep_view(), c) && forall|b: u32|
                            start <= b < c ==> spec_used_contains(used_values.deep_view(), b),
                    None => forall|c: u32|
                        start <= c && c - start < scan ==> spec_used_contains(
                            used_values.deep_view(),
                            c,
                        ),
                }
            },
            Err(e) => spec_parse_ipv4(spec_trim(request.start_ip@)) is None && e
                == AddrError::InvalidAddress,
        },
{
    let chars = str_to_chars(request.start_ip.as_str());
    let t = trim_chars(&chars);
    let start = match parse_ipv4(&t) {
        Some(x) => x,
        None => {
            return Err(AddrError::InvalidAddress);
        },
    };
    let scan_size: u32 = match request.scan_size {
        Some(s) => s,
        None => 256,
    };
    let mut offset: u32 = 0;
    while offset < scan_size
        invariant
            spec_parse_ipv4(spec_trim(request.start_ip@)) == Some(start),
            scan_size == spec_scan_size(request.scan_size),
            0 <= offset <= scan_size,
            forall|b: u32|
                start <= b && b - start < offset ==> spec_used_contains(
                    used_values.deep_view(),
                    b,
                ),
        decreases scan_size - offset,
    {
        if offset > u32::MAX - start {
            // no candidate is left below the top of the address space
            proof {
                assert forall|c: u32| start <= c && c - start < spec_scan_size(
                    request.scan_size,
                ) implies spec_used_contains(used_values.deep_view(), c) by {
                    assert(c - start <= u32::MAX - start);
                    assert(c - start < offset);
                }
            }
            return Ok(NextAvailableElasticIpResponse { next_ip: None });
        }
        let candidate = start + offset;
        if !used_contains(used_values, candidate) {
            proof {
                assert(!spec_used_contains(used_values.deep_view(), candidate));
                assert forall|b: u32| start <= b < candidate implies spec_used_contains(
                    used_values.deep_view(),
                    b,
                ) by {
                    assert(b - start < offset);
                }
            }
            return Ok(
                NextAvailableElasticIpResponse {
                    next_ip: Some(chars_to_string(&format_ipv4(candidate))),
                },
            );
        }
        offset = offset + 1;
    }
    Ok(NextAvailableElasticIpResponse { next_ip: None })
}

/// The scan window: the request's, or 256.
pub open spec fn spec_scan_size(s: Option<u32>) -> int {
    match s {
        Some(x) => x as int,
        None => 256,
    }
}


/// The pair list with the first binding of the key replaced.
pub open spec fn spec_update_first(
    m: Seq<(Seq<char>, Seq<char>)>,
    key: Seq<char>,
    val: Seq<char>,
) -> Seq<(Seq<char>, Seq<char>)>
    decreases m.len(),
{
    if m.len() == 0 {
        m
    } else if m[0].0 == key {
        seq![(key, val)] + m.skip(1)
    } else {
        seq![m[0]] + spec_update_first(m.skip(1), key, val)
    }
}

/// One bulk step over the map and counters
/// `(added, updated, skipped)`.
pub open spec fn spec_bulk_step(
    m: Seq<(Seq<char>, Seq<char>)>,
    counts: (int, int, int),
    internal: Seq<char>,
    elastic: Seq<char>,
    overwrite: bool,
) -> (Seq<(Seq<char>, Seq<char>)>, (int, int, int)) {
    match spec_parse_ipv4(spec_trim(internal)) {
        None => (m, (counts.0, counts.1, counts.2 + 1)),
        Some(ik) => match spec_parse_ipv4(spec_trim(elastic)) {
            None => (m, (counts.0, counts.1, counts.2 + 1)),
            Some(ev) => {
                let key = spec_ipv4_text(ik);
                let val = spec_ipv4_text(ev);
                if crate::natgen::spec_lookup(m, key) is Some {
                    if overwrite {
                        (spec_update_first(m, key, val), (counts.0, counts.1 + 1, counts.2))
                    } else {
                        (m, (counts.0, counts.1, counts.2 + 1))
                    }
                } else {
                    (m.push((key, val)), (counts.0 + 1, counts.1, counts.2))
                }
            },
        },
    }
}

/// The whole bulk run, in entry order.
pub open spec fn spec_bulk(
    m: Seq<(Seq<char>, Seq<char>)>,
    entries: Seq<(Seq<char>, Seq<char>)>,
    overwrite: bool,
) -> (Seq<(Seq<char>, Seq<char>)>, (int, int, int))
    decreases entries.len(),
{
    if entries.len() == 0 {
        (m, (0int, 0int, 0int))
    } else {
        let prev = spec_bulk(m, entries.drop_last(), overwrite);
        spec_bulk_step(
            prev.0,
            prev.1,
            entries.last().0,
            entries.last().1,
            overwrite,
        )
    }
}

/// The request pairs, as views.
pub open spec fn requests_view(entries: Seq<ElasticIpMappingRequest>) -> Seq<(Seq<char>, Seq<char>)> {
    entries.map_values(|e: ElasticIpMappingRequest| (e.internal_ip@, e.elastic_ip@))
}

/// Replaces the first binding of the key, from position `i` on.
fn update_from(m: &Vec<(String, String)>, i: usize, key: &str, val: &str) -> (r: Vec<
    (String, String),
>)
    requires
        i <= m@.len(),
    ensures
        crate::natgen::map_view(r@) == spec_update_first(
            crate::natgen::map_view(m@).skip(i as int),
            key@,
            val@,
        ),
    decreases m@.len() - i,
{
    let ghost mv = crate::natgen::map_view(m@);
    proof {
        assert(mv.len() == m@.len());
        if i < m@.len() {
            assert(mv.skip(i as int)[0] == mv[i as int]);
            assert(mv[i as int] == (m@[i as int].0@, m@[i as int].1@));
            assert(mv.skip(i as int).skip(1) =~= mv.skip(i + 1));
        }
    }
    if i == m.len() {
        let r: Vec<(String, String)> = Vec::new();
        proof {
            assert(mv.skip(i as int) =~= Seq::<(Seq<char>, Seq<char>)>::empty());
            assert(crate::natgen::map_view(r@) =~~= spec_update_first(
                mv.skip(i as int),
                key@,
                val@,
            ));
        }
        return r;
    }
    let kc = str_to_chars(m[i].0.as_str());
    if chars_eq_str(&kc, key) {
        let mut r: Vec<(String, String)> = Vec::new();
        r.push((String::from_str(key), String::from_str(val)));
        let n = m.len();
        let mut j: usize = i + 1;
        while j < n
            invariant
                i < n == m@.len(),
                i + 1 <= j <= n,
                mv == crate::natgen::map_view(m@),
                key@ == kc@,
                crate::natgen::map_view(r@) =~~= seq![(key@, val@)] + mv.subrange(i + 1, j as int),
            decreases n - j,
        {
            proof {
                assert(mv[j as int] == (m@[j as int].0@, m@[j as int].1@));
            }
            r.push((m[j].0.clone(), m[j].1.clone()));
            proof {
                assert(mv.subrange(i + 1, j + 1) =~= mv.subrange(i + 1, j as int).push(
                    mv[j as int],
                ));
                assert(crate::natgen::map_view(r@) =~~= (seq![(key@, val@)] + mv.subrange(
                    i + 1,
                    j as int,
                )).push(mv[j as int]));
                assert(crate::natgen::map_view(r@) =~~= seq![(key@, val@)] + mv.subrange(
                    i + 1,
                    j + 1,
                ));
            }
            j = j + 1;
        }
        proof {
            assert(mv.subrange(i + 1, n as int) =~= mv.skip(i + 1));
            assert(crate::natgen::map_view(r@) =~~= spec_update_first(
                mv.skip(i as int),
                key@,
                val@,
            ));
        }
        r
    } else {
        let rest = update_from(m, i + 1, key, val);
        let mut r: Vec<(String, String)> = Vec::new();
        r.push((m[i].0.clone(), m[i].1.clone()));
        let mut rest_m = rest;
        let ghost restv = crate::natgen::map_view(rest_m@);
        r.append(&mut rest_m);
        proof {
            assert(crate::natgen::map_view(r@) =~~= seq![mv[i as int]] + restv);
            assert(crate::natgen::map_view(r@) =~~= spec_update_first(
                mv.skip(i as int),
                key@,
                val@,
            ));
        }
        r
    }
}

/// Applies a bulk of mapping requests: normalized pairs are inserted,
/// existing keys updated only when overwriting is asked, and entries with
/// an unparsable address are skipped.
#[verifier::rlimit(100)]
pub fn bulk_add_elastic_ip_mappings(
    request: &BulkElasticIpRequest,
    mapping: Vec<(String, String)>,
) -> (r: (Vec<(String, String)>, BulkElasticIpResult))
    requires
        request.entries@.len() <= usize::MAX,
    ensures
        ({
            let out = spec_bulk(
                crate::natgen::map_view(mapping@),
                requests_view(request.entries@),
                request.overwrite_existing,
            );
            &&& crate::natgen::map_view(r.0@) == out.0
            &&& r.1.added == out.1.0
            &&& r.1.updated == out.1.1
            &&& r.1.skipped == out.1.2
        }),
{
    let ghost m0 = crate::natgen::map_view(mapping@);
    let ghost ev = requests_view(request.entries@);
    let mut current = mapping;
    let mut added: usize = 0;
    let mut updated: usize = 0;
    let mut skipped: usize = 0;
    let n = request.entries.len();
    proof {
        assert(ev.take(0) =~= Seq::<(Seq<char>, Seq<char>)>::empty());
    }
    let mut k: usize = 0;
    while k < n
        invariant
            n == request.entries@.len(),
            ev == requests_view(request.entries@),
            ev.len() == n,
            m0 == crate::natgen::map_view(mapping@),
            0 <= k <= n,
            added + updated + skipped == k,
            crate::natgen::map_view(current@) == spec_bulk(
                m0,
                ev.take(k as int),
                request.overwrite_existing,
            ).0,
            added == spec_bulk(m0, ev.take(k as int), request.overwrite_existing).1.0,
            updated == spec_bulk(m0, ev.take(k as int), request.overwrite_existing).1.1,
            skipped == spec_bulk(m0, ev.take(k as int), request.overwrite_existing).1.2,
        decreases n - k,
    {
        proof {
            assert(ev.take(k + 1).drop_last() =~= ev.take(k as int));
            assert(ev.take(k + 1).last() == ev[k as int]);
            assert(ev[k as int] == (request.entries@[k as int].internal_ip@, request.entries@[
                k as int].elastic_ip@));
            lemma_bulk_counts(m0, ev.take(k as int), request.overwrite_existing);
        }
        let entry = &request.entries[k];
        let ic = str_to_chars(entry.internal_ip.as_str());
        let it = trim_chars(&ic);
        let internal = parse_ipv4(&it);
        let ec = str_to_chars(entry.elastic_ip.as_str());
        let et = trim_chars(&ec);
        let elastic = parse_ipv4(&et);
        match (internal, elastic) {
            (Some(ik), Some(evv)) => {
                let key = chars_to_string(&format_ipv4(ik));
                let val = chars_to_string(&format_ipv4(evv));
                match crate::natgen::lookup_pair(&current, key.as_str()) {
                    Some(_) => {
                        if request.overwrite_existing {
                            let ghost cur_mv = crate::natgen::map_view(current@);
                            current = update_from(&current, 0, key.as_str(), val.as_str());
                            proof {
                                assert(cur_mv.skip(0) =~= cur_mv);
                            }
                            updated = updated + 1;
                        } else {
                            skipped = skipped + 1;
                        }
                    },
                    None => {
                        let ghost before = crate::natgen::map_view(current@);
                        current.push((key, val));
                        proof {
                            assert(crate::natgen::map_view(current@) =~~= before.push(
                                (spec_ipv4_text(ik), spec_ipv4_text(evv)),
                            ));
                        }
                        added = added + 1;
                    },
                }
            },
            _ => {
                skipped = skipped + 1;
            },
        }
        k = k + 1;
    }
    proof {
        assert(ev.take(n as int) =~= ev);
    }
    (current, BulkElasticIpResult { added, updated, skipped })
}

/// The counters stay within the number of entries seen.
proof fn lemma_bulk_counts(
    m: Seq<(Seq<char>, Seq<char>)>,
    entries: Seq<(Seq<char>, Seq<char>)>,
    overwrite: bool,
)
    ensures
        spec_bulk(m, entries, overwrite).1.0 >= 0,
        spec_bulk(m, entries, overwrite).1.1 >= 0,
        spec_bulk(m, entries, overwrite).1.2 >= 0,
        spec_bulk(m, entries, overwrite).1.0 + spec_bulk(m, entries, overwrite).1.1 + spec_bulk(
            m,
            entries,
            overwrite,
        ).1.2 == entries.len(),
    decreases entries.len(),
{
    if entries.len() > 0 {
        lemma_bulk_counts(m, entries.drop_last(), overwrite);
    }
}

} // verus!
