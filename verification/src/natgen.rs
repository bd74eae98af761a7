//! Batch generation of NAT server commands: port ranges, row validation,
//! and the per-device command text.

use vstd::prelude::*;
use vstd::string::StringExecFns;

use crate::addr4::{format_ipv4, parse_ipv4, spec_parse_ipv4, spec_ipv4_text};
use crate::text::{
    chars_eq_str, chars_to_string, contains_char, has_char, parse_uint, split_char, split_on, spec_parse_uint, spec_trim,
    str_to_chars, trim_chars,
};
use crate::wrappers::{find_all_of, lower_of, lowercase, regex_find_all, upper_of, uppercase};
use crate::arith::{spec_digits, u64_to_dec};

verus! {

/// An inclusive port range.
#[derive(Clone, Copy, Debug, PartialEq, Eq, Structural)]
pub struct PortRange {
    pub start: u16,
    pub end: u16,
}

impl PortRange {
    /// How many ports the range holds (one when end precedes start, by
    /// saturation).
    pub fn len(&self) -> (r: u32)
        ensures
            r == spec_port_len(*self),
    {
        (self.end as u32).saturating_sub(self.start as u32) + 1
    }

    /// Whether the range spans more than one port.
    pub fn is_range(&self) -> (r: bool)
        ensures
            r == (self.start != self.end),
    {
        self.start != self.end
    }
}

/// The port count of a range, saturating below at one.
pub open spec fn spec_port_len(r: PortRange) -> int {
    if r.end >= r.start {
        r.end - r.start + 1
    } else {
        1
    }
}

/// Why a port expression was rejected.
#[derive(Clone, Copy, Debug, PartialEq, Eq, Structural)]
pub enum PortError {
    /// The expression is empty after trimming.
    Empty,
    /// A part is not a number, or lies outside 1 to 65535.
    BadNumber,
    /// More than two parts.
    BadShape,
    /// The start exceeds the end.
    Order,
}

/// The display text of each port error.
pub open spec fn spec_port_error_text(e: PortError) -> Seq<char> {
    match e {
        PortError::Empty => "port must not be empty"@,
        PortError::BadNumber => "port must be a number between 1 and 65535"@,
        PortError::BadShape => "port range must be start-end"@,
        PortError::Order => "port range start exceeds its end"@,
    }
}

impl PortError {
    /// A short description of the error.
    pub fn message(&self) -> (r: String)
        ensures
            r@ == spec_port_error_text(*self),
    {
        match self {
            PortError::Empty => String::from_str("port must not be empty"),
            PortError::BadNumber => String::from_str("port must be a number between 1 and 65535"),
            PortError::BadShape => String::from_str("port range must be start-end"),
            PortError::Order => String::from_str("port range start exceeds its end"),
        }
    }
}

/// One port number within 1 to 65535, by the standard integer grammar.
pub open spec fn spec_parse_port(s: Seq<char>) -> Option<u16> {
    match spec_parse_uint(spec_trim(s), 0xffff_ffff) {
        Some(n) => if 1 <= n <= 65535 {
            Some(n as u16)
        } else {
            None
        },
        None => None,
    }
}

/// The port-range grammar: one port, or `start-end` split on `-`, or
/// `start:end` split on `:` when no `-` occurs.
pub open spec fn spec_parse_port_range(s: Seq<char>) -> Result<PortRange, PortError> {
    let t = spec_trim(s);
    if t.len() == 0 {
        Err(PortError::Empty)
    } else {
        let parts = if contains_char(t, '-') {
            split_on(t, '-')
        } else if contains_char(t, ':') {
            split_on(t, ':')
        } else {
            seq![t]
        };
        if parts.len() == 1 {
            match spec_parse_port(parts[0]) {
                Some(p) => Ok(PortRange { start: p, end: p }),
                None => Err(PortError::BadNumber),
            }
        } else if parts.len() != 2 {
            Err(PortError::BadShape)
        } else {
            match spec_parse_port(parts[0]) {
                None => Err(PortError::BadNumber),
                Some(a) => match spec_parse_port(parts[1]) {
                    None => Err(PortError::BadNumber),
                    Some(b) => if a > b {
                        Err(PortError::Order)
                    } else {
                        Ok(PortRange { start: a, end: b })
                    },
                },
            }
        }
    }
}

/// Parses one port of a split expression.
fn parse_port(v: &Vec<char>) -> (r: Option<u16>)
    ensures
        r == spec_parse_port(v@),
{
    let t = trim_chars(v);
    match parse_uint(&t, 0xffff_ffff) {
        Some(n) => if 1 <= n && n <= 65535 {
            Some(n as u16)
        } else {
            None
        },
        None => None,
    }
}

/// Parses a port expression into an inclusive range.
pub fn parse_port_range(value: &Vec<char>) -> (r: Result<PortRange, PortError>)
    ensures
        r == spec_parse_port_range(value@),
{
    let t = trim_chars(value);
    if t.len() == 0 {
        return Err(PortError::Empty);
    }
    let parts: Vec<Vec<char>> = if has_char(&t, '-') {
        split_char(&t, '-')
    } else if has_char(&t, ':') {
        split_char(&t, ':')
    } else {
        let mut one: Vec<Vec<char>> = Vec::new();
        one.push(t);
        one
    };
    proof {
        assert forall|k: int| 0 <= k < parts@.len() implies #[trigger] parts.deep_view()[k]
            == parts@[k]@ by {}
        if !contains_char(spec_trim(value@), '-') && !contains_char(spec_trim(value@), ':') {
            assert(parts.deep_view() =~~= seq![spec_trim(value@)]);
        }
    }
    if parts.len() == 1 {
        match parse_port(&parts[0]) {
            Some(p) => Ok(PortRange { start: p, end: p }),
            None => Err(PortError::BadNumber),
        }
    } else if parts.len() != 2 {
        Err(PortError::BadShape)
    } else {
        match parse_port(&parts[0]) {
            None => Err(PortError::BadNumber),
            Some(a) => match parse_port(&parts[1]) {
                None => Err(PortError::BadNumber),
                Some(b) => if a > b {
                    Err(PortError::Order)
                } else {
                    Ok(PortRange { start: a, end: b })
                },
            },
        }
    }
}

/// Splits a range into consecutive chunks of at most `max_span` ports; a
/// zero span keeps the range whole.
pub fn split_port_range_port(range: PortRange, max_span: u16) -> (r: Vec<PortRange>)
    requires
        range.start <= range.end,
    ensures
        max_span == 0 ==> r@ == seq![range],
        max_span >= 1 ==> r@.len() >= 1 && r@[0].start == range.start && r@.last().end == range.end
            && (forall|i: int|
            0 <= i < r@.len() ==> (#[trigger] r@[i]).start <= r@[i].end && r@[i].end - r@[i].start
                + 1 <= max_span) && (forall|i: int|
            0 <= i < r@.len() - 1 ==> (#[trigger] r@[i + 1]).start == r@[i].end + 1),
{
    if max_span == 0 {
        let mut r: Vec<PortRange> = Vec::new();
        r.push(range);
        proof {
            assert(r@ =~= seq![range]);
        }
        return r;
    }
    let mut result: Vec<PortRange> = Vec::new();
    let mut current_start: u32 = range.start as u32;
    while current_start <= range.end as u32
        invariant
            max_span >= 1,
            range.start <= range.end,
            range.start <= current_start,
            current_start <= range.end + 1,
            result@.len() == 0 <==> current_start == range.start,
            result@.len() > 0 ==> result@[0].start == range.start && result@.last().end
                == current_start - 1 && current_start <= range.end + 1,
            forall|i: int|
                0 <= i < result@.len() ==> (#[trigger] result@[i]).start <= result@[i].end
                    && result@[i].end - result@[i].start + 1 <= max_span,
            forall|i: int|
                0 <= i < result@.len() - 1 ==> (#[trigger] result@[i + 1]).start == result@[i].end
                    + 1,
        decreases range.end + 1 - current_start,
    {
        let current_end: u32 = if current_start + (max_span as u32) - 1 <= range.end as u32 {
            current_start + (max_span as u32) - 1
        } else {
            range.end as u32
        };
        let ghost before = result@;
        result.push(PortRange { start: current_start as u16, end: current_end as u16 });
        proof {
            assert forall|i: int|
                0 <= i < result@.len() - 1 implies (#[trigger] result@[i + 1]).start
                == result@[i].end + 1 by {
                if i < before.len() - 1 {
                    assert(result@[i] == before[i] && result@[i + 1] == before[i + 1]);
                }
            }
        }
        current_start = current_end + 1;
    }
    result
}

/// The request to split a port range.
#[derive(Debug)]
pub struct SplitPortRangesRequest {
    pub start_port: u16,
    pub end_port: u16,
    pub max_span: Option<u16>,
}

/// The resulting chunks.
#[derive(Debug)]
pub struct SplitPortRangesResponse {
    pub ranges: Vec<PortRange>,
}

/// Splits the requested range into chunks of at most the requested span
/// (1000 by default, floored at one). Zero ports and reversed ranges are
/// rejected.
pub fn split_port_ranges(request: SplitPortRangesRequest) -> (r: Result<
    SplitPortRangesResponse,
    String,
>)
    ensures
        match r {
            Ok(out) => {
                let span = spec_effective_span(request.max_span);
                &&& request.start_port >= 1 && request.end_port >= 1 && request.start_port
                    <= request.end_port
                &&& out.ranges@.len() >= 1
                &&& out.ranges@[0].start == request.start_port
                &&& out.ranges@.last().end == request.end_port
                &&& forall|i: int|
                    0 <= i < out.ranges@.len() ==> (#[trigger] out.ranges@[i]).start
                        <= out.ranges@[i].end && out.ranges@[i].end - out.ranges@[i].start + 1
                        <= span
                &&& forall|i: int|
                    0 <= i < out.ranges@.len() - 1 ==> (#[trigger] out.ranges@[i + 1]).start
                        == out.ranges@[i].end + 1
            },
            Err(msg) => (request.start_port == 0 || request.end_port == 0 || request.start_port
                > request.end_port) && (msg@ == "ports must be greater than zero"@ || msg@
                == "start port exceeds end port"@),
        },
{
    if request.start_port == 0 || request.end_port == 0 {
        return Err(String::from_str("ports must be greater than zero"));
    }
    if request.start_port > request.end_port {
        return Err(String::from_str("start port exceeds end port"));
    }
    let range = PortRange { start: request.start_port, end: request.end_port };
    let max_span: u16 = match request.max_span {
        Some(s) => if s >= 1 {
            s
        } else {
            1
        },
        None => 1000,
    };
    let ranges = split_port_range_port(range, max_span);
    Ok(SplitPortRangesResponse { ranges })
}

/// The span used for splitting: the request's, floored at one, with 1000
/// as the default.
pub open spec fn spec_effective_span(m: Option<u16>) -> int {
    match m {
        Some(s) => if s >= 1 {
            s as int
        } else {
            1
        },
        None => 1000,
    }
}

/// A column name normalized for lookup: trimmed and lowercased.
pub fn normalize_column_name(value: &str) -> (r: String)
    ensures
        r@ == lower_of(spec_trim(value@)),
{
    let chars = str_to_chars(value);
    let t = trim_chars(&chars);
    lowercase(chars_to_string(&t).as_str())
}

/// The index of the first name holding the marker, or -1.
pub open spec fn first_containing(names: Seq<Seq<char>>, sub: Seq<char>) -> int
    decreases names.len(),
{
    if names.len() == 0 {
        -1
    } else if crate::text::contains_seq(names[0], sub) {
        0
    } else {
        let r = first_containing(names.skip(1), sub);
        if r < 0 {
            -1
        } else {
            r + 1
        }
    }
}

/// The sheet picked when none is named: the first whose name holds one of
/// the mapping markers, in marker order, else the first sheet.
pub open spec fn spec_default_sheet(names: Seq<Seq<char>>) -> Option<Seq<char>> {
    if names.len() == 0 {
        None
    } else if first_containing(names, "映射"@) >= 0 {
        Some(names[first_containing(names, "映射"@)])
    } else if first_containing(names, "需求"@) >= 0 {
        Some(names[first_containing(names, "需求"@)])
    } else {
        Some(names[0])
    }
}

/// Finds the first name holding the marker.
fn find_containing(names: &Vec<String>, sub: &str) -> (r: Option<usize>)
    requires
        sub@.len() >= 1,
    ensures
        match r {
            Some(i) => first_containing(names.deep_view(), sub@) == i && i < names@.len(),
            None => first_containing(names.deep_view(), sub@) < 0,
        },
{
    let subc = str_to_chars(sub);
    let n = names.len();
    proof {
        assert forall|k: int| 0 <= k < names@.len() implies #[trigger] names.deep_view()[k]
            == names@[k]@ by {}
    }
    for i in 0..n
        invariant
            n == names@.len(),
            subc@ == sub@,
            sub@.len() >= 1,
            forall|k: int| 0 <= k < names@.len() ==> #[trigger] names.deep_view()[k] == names@[k]@,
            forall|k: int|
                0 <= k < i ==> !crate::text::contains_seq(#[trigger] names.deep_view()[k], sub@),
    {
        let nc = str_to_chars(names[i].as_str());
        if crate::text::has_sub(&nc, &subc) {
            proof {
                lemma_first_containing(names.deep_view(), sub@, i as int);
            }
            return Some(i);
        }
    }
    proof {
        lemma_first_containing_none(names.deep_view(), sub@);
    }
    None
}

proof fn lemma_first_containing(names: Seq<Seq<char>>, sub: Seq<char>, k: int)
    requires
        0 <= k < names.len(),
        crate::text::contains_seq(names[k], sub),
        forall|j: int| 0 <= j < k ==> !crate::text::contains_seq(#[trigger] names[j], sub),
    ensures
        first_containing(names, sub) == k,
    decreases k,
{
    if k > 0 {
        assert forall|j: int|
            0 <= j < k - 1 implies !crate::text::contains_seq(
            #[trigger] names.skip(1)[j],
            sub,
        ) by {
            assert(names.skip(1)[j] == names[j + 1]);
        }
        assert(names.skip(1)[k - 1] == names[k]);
        lemma_first_containing(names.skip(1), sub, k - 1);
    }
}

proof fn lemma_first_containing_none(names: Seq<Seq<char>>, sub: Seq<char>)
    requires
        forall|j: int| 0 <= j < names.len() ==> !crate::text::contains_seq(#[trigger] names[j], sub),
    ensures
        first_containing(names, sub) < 0,
    decreases names.len(),
{
    if names.len() > 0 {
        assert forall|j: int|
            0 <= j < names.skip(1).len() implies !crate::text::contains_seq(
            #[trigger] names.skip(1)[j],
            sub,
        ) by {
            assert(names.skip(1)[j] == names[j + 1]);
        }
        lemma_first_containing_none(names.skip(1), sub);
    }
}

/// The sheet picked when none is named.
pub fn default_sheet_name(sheet_names: &Vec<String>) -> (r: Option<String>)
    ensures
        match r {
            Some(s) => spec_default_sheet(sheet_names.deep_view()) == Some(s@),
            None => spec_default_sheet(sheet_names.deep_view()) is None,
        },
{
    proof {
        assert forall|k: int| 0 <= k < sheet_names@.len() implies #[trigger] sheet_names.deep_view()[k]
            == sheet_names@[k]@ by {}
    }
    if sheet_names.len() == 0 {
        return None;
    }
    proof {
        reveal_strlit("映射");
        reveal_strlit("需求");
    }
    match find_containing(sheet_names, "映射") {
        Some(i) => {
            return Some(sheet_names[i].clone());
        },
        None => {},
    }
    match find_containing(sheet_names, "需求") {
        Some(i) => {
            return Some(sheet_names[i].clone());
        },
        None => {},
    }
    Some(sheet_names[0].clone())
}

/// The dotted-quad candidates found in a free-form value, newlines treated
/// as spaces.
pub open spec fn spec_public_ip_candidates(value: Seq<char>) -> Seq<Seq<char>> {
    if spec_trim(value).len() == 0 {
        Seq::<Seq<char>>::empty()
    } else {
        find_all_of(
            "\\b(\\d{1,3}(?:\\.\\d{1,3}){3})\\b"@,
            crate::text::spec_replace(value, seq!['\n'], seq![' ']),
        )
    }
}

/// Extracts the dotted-quad candidates from a free-form value.
pub fn process_public_ips(value: &Vec<char>) -> (r: Vec<String>)
    ensures
        r.deep_view() == spec_public_ip_candidates(value@),
{
    let t = trim_chars(value);
    if t.len() == 0 {
        let r: Vec<String> = Vec::new();
        proof {
            assert(r.deep_view() =~~= spec_public_ip_candidates(value@));
        }
        return r;
    }
    let mut nl: Vec<char> = Vec::new();
    nl.push('\n');
    let mut sp: Vec<char> = Vec::new();
    sp.push(' ');
    proof {
        assert(nl@ =~= seq!['\n']);
        assert(sp@ =~= seq![' ']);
    }
    let flat = crate::text::replace_all(value, &nl, &sp);
    regex_find_all("\\b(\\d{1,3}(?:\\.\\d{1,3}){3})\\b", chars_to_string(&flat).as_str())
}


/// One raw row of mapping data, as text fields.
#[derive(Debug)]
pub struct RawNatRow {
    pub protocol: String,
    pub internal_ip: String,
    pub internal_port: Option<String>,
    pub public_ip: String,
    pub public_port: Option<String>,
    pub row_index: usize,
}

/// One manually entered row.
#[derive(Debug)]
pub struct ManualEntry {
    pub protocol: String,
    pub internal_ip: String,
    pub internal_port: Option<String>,
    pub public_ip: String,
    pub public_port: Option<String>,
}

/// One validated mapping entry.
#[derive(Debug)]
pub struct NatEntry {
    pub row_index: usize,
    pub protocol: String,
    pub internal_ip: String,
    pub internal_port_start: Option<u16>,
    pub internal_port_end: Option<u16>,
    pub public_ips: Vec<String>,
    pub public_port_start: Option<u16>,
    pub public_port_end: Option<u16>,
    pub is_port_range: bool,
}

/// The validated entries and the failure lines.
#[derive(Debug)]
pub struct ConvertResponse {
    pub entries: Vec<NatEntry>,
    pub errors: Vec<String>,
}

/// The normalized protocol of a row.
pub open spec fn spec_row_protocol(r: RawNatRow) -> Seq<char> {
    upper_of(spec_trim(r.protocol@))
}

/// Whether the normalized protocol is one of the accepted three.
pub open spec fn spec_protocol_ok(p: Seq<char>) -> bool {
    p == "TCP"@ || p == "UDP"@ || p == "ANY"@
}

/// The text of a port option, when present and non-blank.
pub open spec fn spec_port_text(o: Option<String>) -> Option<Seq<char>> {
    match o {
        Some(v) => if spec_trim(v@).len() > 0 {
            Some(v@)
        } else {
            None
        },
        None => None,
    }
}

/// Whether a row passes every check and becomes an entry.
pub open spec fn spec_row_ok(r: RawNatRow) -> bool {
    let p = spec_row_protocol(r);
    let cands = spec_public_ip_candidates(r.public_ip@);
    &&& spec_protocol_ok(p)
    &&& spec_parse_ipv4(spec_trim(r.internal_ip@)) is Some
    &&& cands.len() > 0
    &&& forall|i: int| 0 <= i < cands.len() ==> spec_parse_ipv4(spec_trim(#[trigger] cands[i])) is Some
    &&& (p == "ANY"@ || ({
        &&& spec_port_text(r.internal_port) is Some
        &&& spec_port_text(r.public_port) is Some
        &&& spec_parse_port_range(spec_port_text(r.internal_port)->0) is Ok
        &&& spec_parse_port_range(spec_port_text(r.public_port)->0) is Ok
        &&& spec_port_len(spec_parse_port_range(spec_port_text(r.internal_port)->0)->Ok_0)
            == spec_port_len(spec_parse_port_range(spec_port_text(r.public_port)->0)->Ok_0)
    }))
}

/// What the entry of a passing row holds.
pub open spec fn nat_entry_matches(e: NatEntry, r: RawNatRow) -> bool {
    let p = spec_row_protocol(r);
    let cands = spec_public_ip_candidates(r.public_ip@);
    let internal = spec_parse_ipv4(spec_trim(r.internal_ip@))->0;
    &&& spec_row_ok(r)
    &&& e.row_index == r.row_index
    &&& e.protocol@ == p
    &&& e.internal_ip@ == spec_ipv4_text(internal)
    &&& e.public_ips@.len() == cands.len()
    &&& forall|i: int|
        0 <= i < cands.len() ==> (#[trigger] e.public_ips@[i])@ == spec_ipv4_text(
            spec_parse_ipv4(spec_trim(cands[i]))->0,
        )
    &&& if p == "ANY"@ {
        e.internal_port_start is None && e.internal_port_end is None && e.public_port_start is None
            && e.public_port_end is None && e.is_port_range == false
    } else {
        let ir = spec_parse_port_range(spec_port_text(r.internal_port)->0)->Ok_0;
        let pr = spec_parse_port_range(spec_port_text(r.public_port)->0)->Ok_0;
        e.internal_port_start == Some(ir.start) && e.internal_port_end == Some(ir.end)
            && e.public_port_start == Some(pr.start) && e.public_port_end == Some(pr.end)
            && e.is_port_range == (ir.start != ir.end)
    }
}

/// Rows split into those that pass and those that fail, in order.
pub open spec fn spec_rows_split(rows: Seq<RawNatRow>) -> (Seq<RawNatRow>, Seq<RawNatRow>)
    decreases rows.len(),
{
    if rows.len() == 0 {
        (Seq::<RawNatRow>::empty(), Seq::<RawNatRow>::empty())
    } else {
        let prev = spec_rows_split(rows.drop_last());
        if spec_row_ok(rows.last()) {
            (prev.0.push(rows.last()), prev.1)
        } else {
            (prev.0, prev.1.push(rows.last()))
        }
    }
}

/// The failure label of a row.
pub open spec fn spec_row_label(idx: usize) -> Seq<char> {
    "row "@ + spec_digits(idx as nat) + ": "@
}

/// Validates one row, gathering its entry or its error messages.
#[verifier::rlimit(100)]
fn validate_one_row(row: &RawNatRow) -> (r: Result<NatEntry, Vec<String>>)
    ensures
        match r {
            Ok(e) => nat_entry_matches(e, *row),
            Err(msgs) => !spec_row_ok(*row) && msgs@.len() >= 1,
        },
{
    let ghost mut row_bad: bool = false;
    let mut row_errors: Vec<String> = Vec::new();
    let pc = str_to_chars(row.protocol.as_str());
    let pt = trim_chars(&pc);
    let protocol_upper = uppercase(chars_to_string(&pt).as_str());
    let pu = str_to_chars(protocol_upper.as_str());
    let proto_ok = chars_eq_str(&pu, "TCP") || chars_eq_str(&pu, "UDP") || chars_eq_str(
        &pu,
        "ANY",
    );
    if !proto_ok {
        row_errors.push(String::from_str("invalid protocol type"));
        proof {
            row_bad = true;
        }
    }
    let ic = str_to_chars(row.internal_ip.as_str());
    let it = trim_chars(&ic);
    let internal = match parse_ipv4(&it) {
        Some(ip) => ip,
        None => {
            row_errors.push(String::from_str("invalid internal address"));
            return Err(row_errors);
        },
    };
    let pubc = str_to_chars(row.public_ip.as_str());
    let candidates = process_public_ips(&pubc);
    let ghost cands = spec_public_ip_candidates(row.public_ip@);
    let mut public_ips: Vec<String> = Vec::new();
    if candidates.len() == 0 {
        row_errors.push(String::from_str("no valid public address found"));
        proof {
            row_bad = true;
        }
    }
    let cn = candidates.len();
    let mut ci: usize = 0;
    while ci < cn
        invariant
            cn == candidates@.len(),
            candidates.deep_view() == cands,
            cands == spec_public_ip_candidates(row.public_ip@),
            cands.len() == cn,
            0 <= ci <= cn,
            pu@ == spec_row_protocol(*row),
            protocol_upper@ == spec_row_protocol(*row),
            proto_ok == spec_protocol_ok(spec_row_protocol(*row)),
            !proto_ok ==> row_bad,
            cn == 0 ==> row_bad,
            spec_parse_ipv4(spec_trim(row.internal_ip@)) == Some(internal),
            row_bad ==> !spec_row_ok(*row),
            row_bad <==> row_errors@.len() > 0,
            !row_bad ==> public_ips@.len() == ci,
            !row_bad ==> forall|i: int|
                0 <= i < ci ==> spec_parse_ipv4(spec_trim(#[trigger] cands[i])) is Some,
            !row_bad ==> forall|i: int|
                0 <= i < ci ==> (#[trigger] public_ips@[i])@ == spec_ipv4_text(
                    spec_parse_ipv4(spec_trim(cands[i]))->0,
                ),
        decreases cn - ci,
    {
        proof {
            assert(candidates.deep_view()[ci as int] == candidates@[ci as int]@);
        }
        let cc = str_to_chars(candidates[ci].as_str());
        let ct = trim_chars(&cc);
        match parse_ipv4(&ct) {
            Some(ip) => {
                public_ips.push(chars_to_string(&format_ipv4(ip)));
            },
            None => {
                row_errors.push(String::from_str("invalid public address"));
                proof {
                    assert(spec_parse_ipv4(spec_trim(cands[ci as int])) is None);
                    assert(!spec_row_ok(*row));
                    row_bad = true;
                }
            },
        }
        ci = ci + 1;
    }
    let is_any = chars_eq_str(&pu, "ANY");
    let (internal_range, public_range, is_port_range): (
        Option<PortRange>,
        Option<PortRange>,
        bool,
    ) = if is_any {
        (None, None, false)
    } else {
        let ipv = port_text(&row.internal_port);
        let ppv = port_text(&row.public_port);
        match (ipv, ppv) {
            (Some(iv), Some(pv)) => {
                let ivc = str_to_chars(iv.as_str());
                let pvc = str_to_chars(pv.as_str());
                match (parse_port_range(&ivc), parse_port_range(&pvc)) {
                    (Ok(ir), Ok(pr)) => {
                        if ir.len() != pr.len() {
                            row_errors.push(String::from_str("port ranges differ in size"));
                            proof {
                                row_bad = true;
                            }
                            (None, None, false)
                        } else {
                            (Some(ir), Some(pr), ir.is_range())
                        }
                    },
                    (Err(e), _) => {
                        row_errors.push(e.message());
                        proof {
                            row_bad = true;
                        }
                        (None, None, false)
                    },
                    (_, Err(e)) => {
                        row_errors.push(e.message());
                        proof {
                            row_bad = true;
                        }
                        (None, None, false)
                    },
                }
            },
            (None, Some(_)) => {
                row_errors.push(String::from_str("tcp/udp requires an internal port"));
                proof {
                    row_bad = true;
                }
                (None, None, false)
            },
            (Some(_), None) => {
                row_errors.push(String::from_str("tcp/udp requires a public port"));
                proof {
                    row_bad = true;
                }
                (None, None, false)
            },
            (None, None) => {
                row_errors.push(String::from_str("tcp/udp requires an internal port"));
                proof {
                    row_bad = true;
                }
                (None, None, false)
            },
        }
    };
    if row_errors.len() > 0 {
        proof {
            assert(row_bad);
        }
        return Err(row_errors);
    }
    proof {
        assert(!row_bad);
        assert(spec_row_ok(*row));
    }
    Ok(
        NatEntry {
            row_index: row.row_index,
            protocol: protocol_upper,
            internal_ip: chars_to_string(&format_ipv4(internal)),
            internal_port_start: match internal_range {
                Some(x) => Some(x.start),
                None => None,
            },
            internal_port_end: match internal_range {
                Some(x) => Some(x.end),
                None => None,
            },
            public_ips,
            public_port_start: match public_range {
                Some(x) => Some(x.start),
                None => None,
            },
            public_port_end: match public_range {
                Some(x) => Some(x.end),
                None => None,
            },
            is_port_range,
        },
    )
}

/// The text of a port option, when present and non-blank.
fn port_text(o: &Option<String>) -> (r: Option<String>)
    ensures
        match r {
            Some(s) => spec_port_text(*o) == Some(s@),
            None => spec_port_text(*o) is None,
        },
{
    match o {
        Some(v) => {
            let vc = str_to_chars(v.as_str());
            let t = trim_chars(&vc);
            if t.len() > 0 {
                Some(v.clone())
            } else {
                None
            }
        },
        None => None,
    }
}

/// Validates the rows: per-row failures are gathered as labelled lines and
/// never stop the batch.
pub fn validate_rows(rows: Vec<RawNatRow>) -> (r: ConvertResponse)
    ensures
        ({
            let split = spec_rows_split(rows@);
            &&& r.entries@.len() == split.0.len()
            &&& forall|i: int|
                0 <= i < split.0.len() ==> nat_entry_matches(
                    #[trigger] r.entries@[i],
                    split.0[i],
                )
            &&& r.errors@.len() == split.1.len()
            &&& forall|i: int|
                0 <= i < split.1.len() ==> starts_with_label(
                    (#[trigger] r.errors@[i])@,
                    split.1[i].row_index,
                )
        }),
{
    let mut entries: Vec<NatEntry> = Vec::new();
    let mut errors: Vec<String> = Vec::new();
    let n = rows.len();
    let mut k: usize = 0;
    while k < n
        invariant
            n == rows@.len(),
            0 <= k <= n,
            entries@.len() == spec_rows_split(rows@.take(k as int)).0.len(),
            forall|i: int|
                0 <= i < entries@.len() ==> nat_entry_matches(
                    #[trigger] entries@[i],
                    spec_rows_split(rows@.take(k as int)).0[i],
                ),
            errors@.len() == spec_rows_split(rows@.take(k as int)).1.len(),
            forall|i: int|
                0 <= i < errors@.len() ==> starts_with_label(
                    (#[trigger] errors@[i])@,
                    spec_rows_split(rows@.take(k as int)).1[i].row_index,
                ),
        decreases n - k,
    {
        proof {
            assert(rows@.take(k + 1).drop_last() =~= rows@.take(k as int));
            assert(rows@.take(k + 1).last() == rows@[k as int]);
        }
        match validate_one_row(&rows[k]) {
            Ok(e) => {
                entries.push(e);
            },
            Err(msgs) => {
                let mut line = str_to_chars("row ");
                let mut d = u64_to_dec(rows[k].row_index as u64);
                line.append(&mut d);
                let mut sep = str_to_chars(": ");
                line.append(&mut sep);
                let mn = msgs.len();
                let mut mi: usize = 0;
                while mi < mn
                    invariant
                        mn == msgs@.len(),
                        0 <= mi <= mn,
                        line@.len() >= ("row "@ + spec_digits(rows@[k as int].row_index as nat)
                            + ": "@).len(),
                        line@.take(
                            ("row "@ + spec_digits(rows@[k as int].row_index as nat)
                                + ": "@).len() as int,
                        ) == "row "@ + spec_digits(rows@[k as int].row_index as nat) + ": "@,
                    decreases mn - mi,
                {
                    if mi > 0 {
                        let mut semi = str_to_chars("; ");
                        line.append(&mut semi);
                    }
                    let mut mc = str_to_chars(msgs[mi].as_str());
                    line.append(&mut mc);
                    proof {
                        let lab = "row "@ + spec_digits(rows@[k as int].row_index as nat) + ": "@;
                        assert(line@.take(lab.len() as int) =~= lab);
                    }
                    mi = mi + 1;
                }
                errors.push(chars_to_string(&line));
                proof {
                    let lab = "row "@ + spec_digits(rows@[k as int].row_index as nat) + ": "@;
                    assert(starts_with_label(line@, rows@[k as int].row_index));
                }
            },
        }
        k = k + 1;
    }
    proof {
        assert(rows@.take(n as int) =~= rows@);
    }
    ConvertResponse { entries, errors }
}

/// Whether an error line carries the label of its row.
pub open spec fn starts_with_label(s: Seq<char>, idx: usize) -> bool {
    crate::text::starts_with(s, "row "@ + spec_digits(idx as nat) + ": "@)
}

/// Rows built from manual entries, numbered from one.
pub fn convert_manual_entries(rows: Vec<ManualEntry>) -> (r: Vec<RawNatRow>)
    ensures
        r@.len() == rows@.len(),
        forall|i: int|
            0 <= i < rows@.len() ==> {
                let e = #[trigger] r@[i];
                &&& e.protocol@ == rows@[i].protocol@
                &&& e.internal_ip@ == rows@[i].internal_ip@
                &&& e.public_ip@ == rows@[i].public_ip@
                &&& e.row_index == i + 1
                &&& spec_port_text(e.internal_port) == spec_port_text(rows@[i].internal_port)
                &&& spec_port_text(e.public_port) == spec_port_text(rows@[i].public_port)
            },
{
    let mut r: Vec<RawNatRow> = Vec::new();
    let n = rows.len();
    for idx in 0..n
        invariant
            n == rows@.len(),
            r@.len() == idx,
            forall|i: int|
                0 <= i < idx ==> {
                    let e = #[trigger] r@[i];
                    &&& e.protocol@ == rows@[i].protocol@
                    &&& e.internal_ip@ == rows@[i].internal_ip@
                    &&& e.public_ip@ == rows@[i].public_ip@
                    &&& e.row_index == i + 1
                    &&& spec_port_text(e.internal_port) == spec_port_text(rows@[i].internal_port)
                    &&& spec_port_text(e.public_port) == spec_port_text(rows@[i].public_port)
                },
    {
        let row = &rows[idx];
        let internal_port: Option<String> = match port_text(&row.internal_port) {
            Some(v) => Some(v),
            None => None,
        };
        let public_port: Option<String> = match port_text(&row.public_port) {
            Some(v) => Some(v),
            None => None,
        };
        r.push(
            RawNatRow {
                protocol: row.protocol.clone(),
                internal_ip: row.internal_ip.clone(),
                internal_port,
                public_ip: row.public_ip.clone(),
                public_port,
                row_index: idx + 1,
            },
        );
    }
    r
}


/// The device dialect for generated commands.
#[derive(Clone, Copy, Debug, PartialEq, Eq, Structural)]
pub enum DeviceType {
    Huawei,
    H3c,
}

impl Default for DeviceType {
    /// The dialect used when none is named.
    fn default() -> (r: Self)
        ensures
            r == DeviceType::Huawei,
    {
        DeviceType::Huawei
    }
}

/// A request to render commands for validated entries.
#[derive(Debug)]
pub struct GenerateNatCommandsRequest {
    pub entries: Vec<NatEntry>,
    pub use_elastic_ip: bool,
    pub device_type: DeviceType,
    pub vrrp_id: Option<u16>,
}

/// The rendered commands, with the internal addresses that lacked an
/// elastic mapping.
#[derive(Debug)]
pub struct GenerateNatCommandsResponse {
    pub commands: Vec<String>,
    pub missing_elastic_ips: Vec<String>,
}

/// The sheet analysis handed back by spreadsheet ingestion; assembled by
/// callers that read workbooks, validated rows flow through this library.
#[derive(Debug)]
pub struct ExcelAnalysis {
    pub sheet_names: Vec<String>,
    pub selected_sheet: String,
    pub header_row_index: usize,
    pub columns: Vec<String>,
    pub preview_rows: Vec<Vec<String>>,
    pub suggested_mapping: Vec<(String, String)>,
    pub total_rows: usize,
}

/// A request to analyze a workbook by path.
#[derive(Debug)]
pub struct ProcessExcelRequest {
    pub file_path: String,
    pub sheet_name: Option<String>,
}

/// Where converted rows come from: a workbook by path, or manual rows.
pub enum ConvertInputRequest {
    Excel {
        file_path: String,
        sheet_name: Option<String>,
        header_row_index: usize,
        column_mapping: Vec<(String, String)>,
    },
    Manual { rows: Vec<ManualEntry> },
}

/// Validates rows and fails only when nothing validated: the shared tail
/// of both conversion sources.
pub fn convert_rows_to_entries(rows: Vec<RawNatRow>) -> (r: Result<ConvertResponse, String>)
    ensures
        ({
            let split = spec_rows_split(rows@);
            match r {
                Ok(out) => split.0.len() > 0 && out.entries@.len() == split.0.len() && (forall|
                    i: int,
                |
                    0 <= i < split.0.len() ==> nat_entry_matches(
                        #[trigger] out.entries@[i],
                        split.0[i],
                    )) && out.errors@.len() == split.1.len(),
                Err(_) => split.0.len() == 0,
            }
        }),
{
    let out = validate_rows(rows);
    if out.entries.len() == 0 {
        if out.errors.len() == 0 {
            return Err(String::from_str("no rows to convert"));
        }
        let mut all = String::new();
        let n = out.errors.len();
        for i in 0..n
            invariant
                n == out.errors@.len(),
        {
            if i > 0 {
                let semi = String::from_str("; ");
                all.append(semi.as_str());
            }
            all.append(out.errors[i].as_str());
        }
        return Err(all);
    }
    Ok(out)
}

/// The huawei command for one entry and public address, or nothing when a
/// needed port is absent.
pub open spec fn spec_huawei_cmd(
    e: NatEntry,
    public_ip: Seq<char>,
    isp_prefix: Seq<char>,
    elastic: Option<Seq<char>>,
) -> Option<Seq<char>> {
    let inside = match elastic {
        Some(x) => x,
        None => e.internal_ip@,
    };
    if e.protocol@ == "ANY"@ {
        Some(
            "nat server "@ + isp_prefix + e.protocol@ + e.internal_ip@ + " global "@ + public_ip
                + " inside "@ + inside + " no-reverse"@,
        )
    } else {
        match e.internal_port_start {
            None => None,
            Some(istart) => match e.public_port_start {
                None => None,
                Some(pstart) => {
                    let iend = match e.internal_port_end {
                        Some(x) => x,
                        None => istart,
                    };
                    let pend = match e.public_port_end {
                        Some(x) => x,
                        None => pstart,
                    };
                    let pl = lower_of(e.protocol@);
                    if istart == iend {
                        Some(
                            "nat server "@ + isp_prefix + e.protocol@ + e.internal_ip@ + seq![':']
                                + spec_digits(istart as nat) + " protocol "@ + pl + " global "@
                                + public_ip + seq![' '] + spec_digits(pstart as nat) + " inside "@
                                + inside + seq![' '] + spec_digits(istart as nat) + " no-reverse"@,
                        )
                    } else {
                        Some(
                            "nat server "@ + isp_prefix + e.protocol@ + e.internal_ip@ + seq![':']
                                + spec_digits(istart as nat) + seq!['-'] + spec_digits(
                                iend as nat,
                            ) + " protocol "@ + pl + " global "@ + public_ip + seq![' ']
                                + spec_digits(pstart as nat) + seq![' '] + spec_digits(
                                pend as nat,
                            ) + " inside "@ + inside + seq![' '] + spec_digits(istart as nat)
                                + seq![' '] + spec_digits(iend as nat) + " no-reverse"@,
                        )
                    }
                },
            },
        }
    }
}

/// Renders the huawei command.
#[verifier::rlimit(100)]
pub fn build_huawei_command(
    entry: &NatEntry,
    public_ip: &str,
    isp_prefix: &str,
    elastic_ip: &Option<String>,
) -> (r: Option<String>)
    ensures
        ({
            let elastic = match *elastic_ip {
                Some(ref x) => Some(x@),
                None => None::<Seq<char>>,
            };
            match r {
                Some(s) => spec_huawei_cmd(*entry, public_ip@, isp_prefix@, elastic) == Some(s@),
                None => spec_huawei_cmd(*entry, public_ip@, isp_prefix@, elastic) is None,
            }
        }),
{
    let mut v = str_to_chars("nat server ");
    let mut pre = str_to_chars(isp_prefix);
    v.append(&mut pre);
    let mut proto = str_to_chars(entry.protocol.as_str());
    v.append(&mut proto);
    let mut iip = str_to_chars(entry.internal_ip.as_str());
    v.append(&mut iip);
    let pc = str_to_chars(entry.protocol.as_str());
    if chars_eq_str(&pc, "ANY") {
        let mut g = str_to_chars(" global ");
        v.append(&mut g);
        let mut pip = str_to_chars(public_ip);
        v.append(&mut pip);
        let mut ins = str_to_chars(" inside ");
        v.append(&mut ins);
        match elastic_ip {
            Some(x) => {
                let mut e = str_to_chars(x.as_str());
                v.append(&mut e);
            },
            None => {
                let mut e = str_to_chars(entry.internal_ip.as_str());
                v.append(&mut e);
            },
        }
        let mut nr = str_to_chars(" no-reverse");
        v.append(&mut nr);
        proof {
            let elastic = match *elastic_ip {
                Some(ref x) => Some(x@),
                None => None::<Seq<char>>,
            };
            assert(Some(v@) =~~= spec_huawei_cmd(*entry, public_ip@, isp_prefix@, elastic));
        }
        return Some(chars_to_string(&v));
    }
    let istart = match entry.internal_port_start {
        Some(x) => x,
        None => {
            return None;
        },
    };
    let pstart = match entry.public_port_start {
        Some(x) => x,
        None => {
            return None;
        },
    };
    let iend = match entry.internal_port_end {
        Some(x) => x,
        None => istart,
    };
    let pend = match entry.public_port_end {
        Some(x) => x,
        None => pstart,
    };
    let lowered = lowercase(entry.protocol.as_str());
    v.push(':');
    let mut isd = u64_to_dec(istart as u64);
    v.append(&mut isd);
    if istart != iend {
        v.push('-');
        let mut ied = u64_to_dec(iend as u64);
        v.append(&mut ied);
    }
    let mut pr = str_to_chars(" protocol ");
    v.append(&mut pr);
    let mut pl = str_to_chars(lowered.as_str());
    v.append(&mut pl);
    let mut g = str_to_chars(" global ");
    v.append(&mut g);
    let mut pip = str_to_chars(public_ip);
    v.append(&mut pip);
    v.push(' ');
    let mut psd = u64_to_dec(pstart as u64);
    v.append(&mut psd);
    if istart != iend {
        v.push(' ');
        let mut ped = u64_to_dec(pend as u64);
        v.append(&mut ped);
    }
    let mut ins = str_to_chars(" inside ");
    v.append(&mut ins);
    match elastic_ip {
        Some(x) => {
            let mut e = str_to_chars(x.as_str());
            v.append(&mut e);
        },
        None => {
            let mut e = str_to_chars(entry.internal_ip.as_str());
            v.append(&mut e);
        },
    }
    v.push(' ');
    let mut isd2 = u64_to_dec(istart as u64);
    v.append(&mut isd2);
    if istart != iend {
        v.push(' ');
        let mut ied2 = u64_to_dec(iend as u64);
        v.append(&mut ied2);
    }
    let mut nr = str_to_chars(" no-reverse");
    v.append(&mut nr);
    proof {
        let elastic = match *elastic_ip {
            Some(ref x) => Some(x@),
            None => None::<Seq<char>>,
        };
        assert(Some(v@) =~~= spec_huawei_cmd(*entry, public_ip@, isp_prefix@, elastic));
    }
    Some(chars_to_string(&v))
}

/// The h3c command for one entry and public address.
pub open spec fn spec_h3c_cmd(
    e: NatEntry,
    public_ip: Seq<char>,
    isp_prefix: Seq<char>,
    elastic: Option<Seq<char>>,
    vrrp_id: u16,
) -> Option<Seq<char>> {
    let inside = match elastic {
        Some(x) => x,
        None => e.internal_ip@,
    };
    if e.protocol@ == "ANY"@ {
        Some(
            "nat server global "@ + public_ip + " inside "@ + inside + " vrrp "@ + spec_digits(
                vrrp_id as nat,
            ) + " description "@ + isp_prefix + e.protocol@ + e.internal_ip@,
        )
    } else {
        match e.internal_port_start {
            None => None,
            Some(istart) => match e.public_port_start {
                None => None,
                Some(pstart) => {
                    let iend = match e.internal_port_end {
                        Some(x) => x,
                        None => istart,
                    };
                    let pend = match e.public_port_end {
                        Some(x) => x,
                        None => pstart,
                    };
                    let pl = lower_of(e.protocol@);
                    let desc = isp_prefix + e.protocol@ + e.internal_ip@ + seq![':'] + spec_digits(
                        istart as nat,
                    ) + if istart == iend {
                        Seq::<char>::empty()
                    } else {
                        seq!['-'] + spec_digits(iend as nat)
                    };
                    let ports_global = seq![' '] + spec_digits(pstart as nat) + if istart == iend {
                        Seq::<char>::empty()
                    } else {
                        seq![' '] + spec_digits(pend as nat)
                    };
                    let ports_inside = seq![' '] + spec_digits(istart as nat) + if istart == iend {
                        Seq::<char>::empty()
                    } else {
                        seq![' '] + spec_digits(iend as nat)
                    };
                    Some(
                        "nat server protocol "@ + pl + " global "@ + public_ip + ports_global
                            + " inside "@ + inside + ports_inside + " vrrp "@ + spec_digits(
                            vrrp_id as nat,
                        ) + " description "@ + desc,
                    )
                },
            },
        }
    }
}

/// Renders the h3c command.
#[verifier::rlimit(100)]
pub fn build_h3c_command(
    entry: &NatEntry,
    public_ip: &str,
    isp_prefix: &str,
    elastic_ip: &Option<String>,
    vrrp_id: u16,
) -> (r: Option<String>)
    ensures
        ({
            let elastic = match *elastic_ip {
                Some(ref x) => Some(x@),
                None => None::<Seq<char>>,
            };
            match r {
                Some(s) => spec_h3c_cmd(*entry, public_ip@, isp_prefix@, elastic, vrrp_id) == Some(
                    s@,
                ),
                None => spec_h3c_cmd(*entry, public_ip@, isp_prefix@, elastic, vrrp_id) is None,
            }
        }),
{
    let pc = str_to_chars(entry.protocol.as_str());
    if chars_eq_str(&pc, "ANY") {
        let mut v = str_to_chars("nat server global ");
        let mut pip = str_to_chars(public_ip);
        v.append(&mut pip);
        let mut ins = str_to_chars(" inside ");
        v.append(&mut ins);
        match elastic_ip {
            Some(x) => {
                let mut e = str_to_chars(x.as_str());
                v.append(&mut e);
            },
            None => {
                let mut e = str_to_chars(entry.internal_ip.as_str());
                v.append(&mut e);
            },
        }
        let mut vr = str_to_chars(" vrrp ");
        v.append(&mut vr);
        let mut vd = u64_to_dec(vrrp_id as u64);
        v.append(&mut vd);
        let mut de = str_to_chars(" description ");
        v.append(&mut de);
        let mut pre = str_to_chars(isp_prefix);
        v.append(&mut pre);
        let mut proto = str_to_chars(entry.protocol.as_str());
        v.append(&mut proto);
        let mut iip = str_to_chars(entry.internal_ip.as_str());
        v.append(&mut iip);
        proof {
            let elastic = match *elastic_ip {
                Some(ref x) => Some(x@),
                None => None::<Seq<char>>,
            };
            assert(Some(v@) =~~= spec_h3c_cmd(*entry, public_ip@, isp_prefix@, elastic, vrrp_id));
        }
        return Some(chars_to_string(&v));
    }
    let istart = match entry.internal_port_start {
        Some(x) => x,
        None => {
            return None;
        },
    };
    let pstart = match entry.public_port_start {
        Some(x) => x,
        None => {
            return None;
        },
    };
    let iend = match entry.internal_port_end {
        Some(x) => x,
        None => istart,
    };
    let pend = match entry.public_port_end {
        Some(x) => x,
        None => pstart,
    };
    let lowered = lowercase(entry.protocol.as_str());
    let mut ports_global: Vec<char> = Vec::new();
    ports_global.push(' ');
    let mut psd = u64_to_dec(pstart as u64);
    ports_global.append(&mut psd);
    if istart != iend {
        ports_global.push(' ');
        let mut ped = u64_to_dec(pend as u64);
        ports_global.append(&mut ped);
    }
    let mut ports_inside: Vec<char> = Vec::new();
    ports_inside.push(' ');
    let mut isd = u64_to_dec(istart as u64);
    ports_inside.append(&mut isd);
    if istart != iend {
        ports_inside.push(' ');
        let mut ied = u64_to_dec(iend as u64);
        ports_inside.append(&mut ied);
    }
    let mut desc = str_to_chars(isp_prefix);
    let mut proto = str_to_chars(entry.protocol.as_str());
    desc.append(&mut proto);
    let mut iip = str_to_chars(entry.internal_ip.as_str());
    desc.append(&mut iip);
    desc.push(':');
    let mut isd2 = u64_to_dec(istart as u64);
    desc.append(&mut isd2);
    if istart != iend {
        desc.push('-');
        let mut ied2 = u64_to_dec(iend as u64);
        desc.append(&mut ied2);
    }
    proof {
        assert(ports_global@ =~= seq![' '] + spec_digits(pstart as nat) + if istart == iend {
            Seq::<char>::empty()
        } else {
            seq![' '] + spec_digits(pend as nat)
        });
        assert(ports_inside@ =~= seq![' '] + spec_digits(istart as nat) + if istart == iend {
            Seq::<char>::empty()
        } else {
            seq![' '] + spec_digits(iend as nat)
        });
        assert(desc@ =~= isp_prefix@ + entry.protocol@ + entry.internal_ip@ + seq![':']
            + spec_digits(istart as nat) + if istart == iend {
            Seq::<char>::empty()
        } else {
            seq!['-'] + spec_digits(iend as nat)
        });
    }
    let mut v = str_to_chars("nat server protocol ");
    let mut pl = str_to_chars(lowered.as_str());
    v.append(&mut pl);
    let mut g = str_to_chars(" global ");
    v.append(&mut g);
    let mut pip = str_to_chars(public_ip);
    v.append(&mut pip);
    v.append(&mut ports_global);
    let mut ins = str_to_chars(" inside ");
    v.append(&mut ins);
    match elastic_ip {
        Some(x) => {
            let mut e = str_to_chars(x.as_str());
            v.append(&mut e);
        },
        None => {
            let mut e = str_to_chars(entry.internal_ip.as_str());
            v.append(&mut e);
        },
    }
    v.append(&mut ports_inside);
    let mut vr = str_to_chars(" vrrp ");
    v.append(&mut vr);
    let mut vd = u64_to_dec(vrrp_id as u64);
    v.append(&mut vd);
    let mut de = str_to_chars(" description ");
    v.append(&mut de);
    v.append(&mut desc);
    proof {
        let elastic = match *elastic_ip {
            Some(ref x) => Some(x@),
            None => None::<Seq<char>>,
        };
        assert(Some(v@) =~~= spec_h3c_cmd(*entry, public_ip@, isp_prefix@, elastic, vrrp_id));
    }
    Some(chars_to_string(&v))
}


/// The pair view of the elastic map.
pub open spec fn map_view(m: Seq<(String, String)>) -> Seq<(Seq<char>, Seq<char>)> {
    m.map_values(|p: (String, String)| (p.0@, p.1@))
}

/// The first value stored under a key.
pub open spec fn spec_lookup(m: Seq<(Seq<char>, Seq<char>)>, key: Seq<char>) -> Option<Seq<char>>
    decreases m.len(),
{
    if m.len() == 0 {
        None
    } else if m[0].0 == key {
        Some(m[0].1)
    } else {
        spec_lookup(m.skip(1), key)
    }
}

/// Looks a key up in the pair list.
pub fn lookup_pair(m: &Vec<(String, String)>, key: &str) -> (r: Option<String>)
    ensures
        match r {
            Some(v) => spec_lookup(map_view(m@), key@) == Some(v@),
            None => spec_lookup(map_view(m@), key@) is None,
        },
{
    let ghost mv = map_view(m@);
    let n = m.len();
    proof {
        assert(mv.len() == n);
    }
    for i in 0..n
        invariant
            n == m@.len(),
            mv == map_view(m@),
            mv.len() == n,
            forall|k: int| 0 <= k < i ==> (#[trigger] mv[k]).0 != key@,
    {
        proof {
            assert(mv[i as int] == (m@[i as int].0@, m@[i as int].1@));
        }
        let kc = str_to_chars(m[i].0.as_str());
        if chars_eq_str(&kc, key) {
            proof {
                lemma_lookup_at(mv, key@, i as int);
            }
            return Some(m[i].1.clone());
        }
    }
    proof {
        lemma_lookup_none(mv, key@);
    }
    None
}

proof fn lemma_lookup_at(m: Seq<(Seq<char>, Seq<char>)>, key: Seq<char>, k: int)
    requires
        0 <= k < m.len(),
        m[k].0 == key,
        forall|j: int| 0 <= j < k ==> (#[trigger] m[j]).0 != key,
    ensures
        spec_lookup(m, key) == Some(m[k].1),
    decreases k,
{
    if k > 0 {
        assert forall|j: int| 0 <= j < k - 1 implies (#[trigger] m.skip(1)[j]).0 != key by {
            assert(m.skip(1)[j] == m[j + 1]);
        }
        assert(m.skip(1)[k - 1] == m[k]);
        lemma_lookup_at(m.skip(1), key, k - 1);
    }
}

proof fn lemma_lookup_none(m: Seq<(Seq<char>, Seq<char>)>, key: Seq<char>)
    requires
        forall|j: int| 0 <= j < m.len() ==> (#[trigger] m[j]).0 != key,
    ensures
        spec_lookup(m, key) is None,
    decreases m.len(),
{
    if m.len() > 0 {
        assert forall|j: int| 0 <= j < m.skip(1).len() implies (#[trigger] m.skip(1)[j]).0
            != key by {
            assert(m.skip(1)[j] == m[j + 1]);
        }
        lemma_lookup_none(m.skip(1), key);
    }
}

/// Strict order on texts, character by character.
pub open spec fn lex_lt(a: Seq<char>, b: Seq<char>) -> bool
    decreases a.len(),
{
    if b.len() == 0 {
        false
    } else if a.len() == 0 {
        true
    } else if a[0] != b[0] {
        a[0] < b[0]
    } else {
        lex_lt(a.skip(1), b.skip(1))
    }
}

/// Exactly one of smaller, equal, greater holds.
proof fn lemma_lex_trichotomy(a: Seq<char>, b: Seq<char>)
    ensures
        lex_lt(a, b) || lex_lt(b, a) || a == b,
        lex_lt(a, b) ==> !lex_lt(b, a) && a != b,
        lex_lt(b, a) ==> !lex_lt(a, b) && a != b,
    decreases a.len(),
{
    if a.len() == 0 || b.len() == 0 {
        if a.len() == 0 && b.len() == 0 {
            assert(a =~= b);
        }
    } else if a[0] == b[0] {
        lemma_lex_trichotomy(a.skip(1), b.skip(1));
        if a.skip(1) == b.skip(1) {
            assert forall|i: int| 0 <= i < a.len() implies a[i] == b[i] by {
                if i > 0 {
                    assert(a.skip(1)[i - 1] == a[i]);
                    assert(b.skip(1)[i - 1] == b[i]);
                }
            }
            assert(a =~= b);
        }
        if a == b {
            assert(a.skip(1) =~= b.skip(1));
        }
    }
}

/// The order chains.
proof fn lemma_lex_trans(a: Seq<char>, b: Seq<char>, c: Seq<char>)
    requires
        lex_lt(a, b),
        lex_lt(b, c),
    ensures
        lex_lt(a, c),
    decreases a.len() + b.len() + c.len(),
{
    if a.len() == 0 {
        assert(c.len() > 0);
    } else {
        assert(b.len() > 0 && c.len() > 0);
        if a[0] == b[0] && b[0] == c[0] {
            lemma_lex_trans(a.skip(1), b.skip(1), c.skip(1));
        }
    }
}

/// Compares two texts.
fn lex_lt_chars(a: &Vec<char>, b: &Vec<char>, i: usize) -> (r: bool)
    requires
        i <= a@.len(),
        i <= b@.len(),
    ensures
        r == lex_lt(a@.skip(i as int), b@.skip(i as int)),
    decreases a@.len() - i,
{
    proof {
        if i < b@.len() {
            assert(b@.skip(i as int)[0] == b@[i as int]);
        }
        if i < a@.len() {
            assert(a@.skip(i as int)[0] == a@[i as int]);
        }
        assert(a@.skip(i as int).len() == a@.len() - i);
        assert(b@.skip(i as int).len() == b@.len() - i);
    }
    if i == b.len() {
        false
    } else if i == a.len() {
        true
    } else if a[i] != b[i] {
        a[i] < b[i]
    } else {
        proof {
            assert(a@.skip(i as int).skip(1) =~= a@.skip(i + 1));
            assert(b@.skip(i as int).skip(1) =~= b@.skip(i + 1));
        }
        lex_lt_chars(a, b, i + 1)
    }
}

/// A strictly ordered list of distinct texts.
pub open spec fn sorted_unique(s: Seq<Seq<char>>) -> bool {
    forall|i: int, j: int| 0 <= i < j < s.len() ==> lex_lt(#[trigger] s[i], #[trigger] s[j])
}

/// Whether the list holds the text.
pub open spec fn list_has(s: Seq<Seq<char>>, x: Seq<char>) -> bool {
    exists|i: int| 0 <= i < s.len() && #[trigger] s[i] == x
}

/// The first position whose element is not below the probe.
fn lower_bound(list: &Vec<String>, vc: &Vec<char>) -> (pos: usize)
    ensures
        pos <= list@.len(),
        forall|k: int| 0 <= k < pos ==> lex_lt(#[trigger] list.deep_view()[k], vc@),
        pos < list@.len() ==> !lex_lt(list.deep_view()[pos as int], vc@),
{
    proof {
        assert forall|k: int| 0 <= k < list@.len() implies #[trigger] list.deep_view()[k]
            == list@[k]@ by {}
    }
    let n = list.len();
    for i in 0..n
        invariant
            n == list@.len(),
            forall|k: int|
                0 <= k < list@.len() ==> #[trigger] list.deep_view()[k] == list@[k]@,
            forall|k: int| 0 <= k < i ==> lex_lt(#[trigger] list.deep_view()[k], vc@),
    {
        let ec = str_to_chars(list[i].as_str());
        proof {
            assert(ec@.skip(0) =~= ec@);
            assert(vc@.skip(0) =~= vc@);
        }
        if !lex_lt_chars(&ec, vc, 0) {
            return i;
        }
    }
    n
}

/// Inserts into the ordered list, keeping order and dropping duplicates.
fn insert_sorted_unique(list: &mut Vec<String>, value: String)
    requires
        sorted_unique(old(list).deep_view()),
    ensures
        sorted_unique(final (list).deep_view()),
        forall|x: Seq<char>|
            #![trigger list_has(final (list).deep_view(), x)]
            list_has(final (list).deep_view(), x) == (list_has(old(list).deep_view(), x) || x
                == value@),
{
    proof {
        assert forall|k: int| 0 <= k < list@.len() implies #[trigger] list.deep_view()[k]
            == list@[k]@ by {}
    }
    let vc = str_to_chars(value.as_str());
    let n = list.len();
    let pos = lower_bound(list, &vc);
    if pos < n {
        let ec = str_to_chars(list[pos].as_str());
        if crate::text::chars_eq(&ec, &vc) {
            proof {
                assert(list.deep_view()[pos as int] == value@);
                assert(list_has(list.deep_view(), value@));
            }
            return ;
        }
    }
    let ghost before = list.deep_view();
    list.insert(pos, value);
    proof {
        assert(list@ == old(list)@.insert(pos as int, value));
        assert(list.deep_view() =~~= before.insert(pos as int, value@));
        let after = list.deep_view();
        assert forall|i: int, j: int| 0 <= i < j < after.len() implies lex_lt(
            #[trigger] after[i],
            #[trigger] after[j],
        ) by {
            lemma_lex_trichotomy(before[pos as int], value@);
            if i < pos && j == pos {
                assert(after[i] == before[i] && after[j] == value@);
            } else if i == pos && j > pos {
                assert(after[j] == before[j - 1]);
                if pos < before.len() {
                    // value precedes the first element not below it
                    assert(!lex_lt(before[pos as int], value@));
                    assert(before[pos as int] != value@);
                    assert(lex_lt(value@, before[pos as int]));
                    if j - 1 > pos {
                        lemma_lex_trans(value@, before[pos as int], before[j - 1]);
                    }
                }
            } else if i < pos && j > pos {
                assert(after[i] == before[i] && after[j] == before[j - 1]);
                if i < pos && pos <= j - 1 && i < j - 1 {
                    assert(lex_lt(before[i], before[j - 1]));
                } else {
                    assert(i == j - 1);
                    assert(lex_lt(before[i], value@));
                    assert(after[j] == before[i]);
                    assert(false);
                }
            } else if j < pos {
                assert(after[i] == before[i] && after[j] == before[j]);
            } else if i > pos {
                assert(after[i] == before[i - 1] && after[j] == before[j - 1]);
            }
        }
        assert forall|x: Seq<char>|
            #![trigger list_has(after, x)]
            list_has(after, x) == (list_has(before, x) || x == value@) by {
            if list_has(before, x) {
                let i = choose|i: int| 0 <= i < before.len() && #[trigger] before[i] == x;
                if i < pos {
                    assert(after[i] == x);
                } else {
                    assert(after[i + 1] == x);
                }
            }
            assert(after[pos as int] == value@);
            if list_has(after, x) {
                let i = choose|i: int| 0 <= i < after.len() && #[trigger] after[i] == x;
                if i < pos {
                    assert(before[i] == x);
                } else if i > pos {
                    assert(before[i - 1] == x);
                }
            }
        }
    }
}

/// The carrier prefix prepended to command names for a public address.
pub open spec fn spec_isp_prefix(
    dv: Seq<(Seq<char>, Seq<Seq<char>>)>,
    pip: Seq<char>,
) -> Seq<char> {
    match spec_parse_ipv4(spec_trim(pip)) {
        Some(a) => match crate::isp::spec_find_isp(dv, a) {
            Some(p) => p.0 + seq!['_'],
            None => Seq::<char>::empty(),
        },
        None => Seq::<char>::empty(),
    }
}

/// The commands one entry yields over its public addresses, in order.
pub open spec fn spec_entry_cmds(
    e: NatEntry,
    pips: Seq<Seq<char>>,
    device: DeviceType,
    vrrp: u16,
    elastic: Option<Seq<char>>,
    dv: Seq<(Seq<char>, Seq<Seq<char>>)>,
) -> Seq<Seq<char>>
    decreases pips.len(),
{
    if pips.len() == 0 {
        Seq::<Seq<char>>::empty()
    } else {
        let prev = spec_entry_cmds(e, pips.drop_last(), device, vrrp, elastic, dv);
        let pip = pips.last();
        let pre = spec_isp_prefix(dv, pip);
        let cmd = match device {
            DeviceType::Huawei => spec_huawei_cmd(e, pip, pre, elastic),
            DeviceType::H3c => spec_h3c_cmd(e, pip, pre, elastic, vrrp),
        };
        match cmd {
            Some(c) => prev.push(c),
            None => prev,
        }
    }
}

/// The elastic address used for one entry.
pub open spec fn spec_entry_elastic(
    use_elastic: bool,
    m: Seq<(Seq<char>, Seq<char>)>,
    e: NatEntry,
) -> Option<Seq<char>> {
    if use_elastic {
        spec_lookup(m, e.internal_ip@)
    } else {
        None
    }
}

/// All commands over all entries, in order.
pub open spec fn spec_all_cmds(
    entries: Seq<NatEntry>,
    device: DeviceType,
    vrrp: u16,
    use_elastic: bool,
    m: Seq<(Seq<char>, Seq<char>)>,
    dv: Seq<(Seq<char>, Seq<Seq<char>>)>,
) -> Seq<Seq<char>>
    decreases entries.len(),
{
    if entries.len() == 0 {
        Seq::<Seq<char>>::empty()
    } else {
        spec_all_cmds(entries.drop_last(), device, vrrp, use_elastic, m, dv) + spec_entry_cmds(
            entries.last(),
            entries.last().public_ips.deep_view(),
            device,
            vrrp,
            spec_entry_elastic(use_elastic, m, entries.last()),
            dv,
        )
    }
}

/// Whether some entry's internal address lacks an elastic mapping.
pub open spec fn spec_is_missing(
    entries: Seq<NatEntry>,
    m: Seq<(Seq<char>, Seq<char>)>,
    x: Seq<char>,
) -> bool {
    exists|i: int|
        0 <= i < entries.len() && (#[trigger] entries[i]).internal_ip@ == x && spec_lookup(
            m,
            x,
        ) is None
}

/// Renders one command per entry and public address, under the named
/// dialect, prefixing names with the matched carrier, substituting elastic
/// addresses when asked, and reporting the internal addresses that lack
/// one as a sorted list without duplicates. An h3c request must carry a
/// VRRP identifier.
#[verifier::rlimit(100)]
pub fn generate_nat_commands(
    request: &GenerateNatCommandsRequest,
    elastic_mapping: &Vec<(String, String)>,
    isp_data: &Vec<(String, Vec<String>)>,
) -> (r: Result<GenerateNatCommandsResponse, String>)
    ensures
        match r {
            Err(msg) => request.device_type == DeviceType::H3c && request.vrrp_id is None && msg@
                == "an h3c device needs a vrrp id"@,
            Ok(out) => {
                let vrrp = match request.vrrp_id {
                    Some(v) => v,
                    None => 0,
                };
                &&& (request.device_type == DeviceType::H3c ==> request.vrrp_id is Some)
                &&& out.commands.deep_view() == spec_all_cmds(
                    request.entries@,
                    request.device_type,
                    vrrp,
                    request.use_elastic_ip,
                    map_view(elastic_mapping@),
                    crate::isp::data_view(isp_data@),
                )
                &&& sorted_unique(out.missing_elastic_ips.deep_view())
                &&& forall|x: Seq<char>|
                    #![trigger list_has(out.missing_elastic_ips.deep_view(), x)]
                    list_has(out.missing_elastic_ips.deep_view(), x) == (request.use_elastic_ip
                        && spec_is_missing(request.entries@, map_view(elastic_mapping@), x))
            },
        },
{
    if request.device_type == DeviceType::H3c && matches!(request.vrrp_id, None) {
        return Err(String::from_str("an h3c device needs a vrrp id"));
    }
    let vrrp_id: u16 = match request.vrrp_id {
        Some(v) => v,
        None => 0,
    };
    let ghost mv = map_view(elastic_mapping@);
    let ghost dv = crate::isp::data_view(isp_data@);
    let mut commands: Vec<String> = Vec::new();
    let mut missing: Vec<String> = Vec::new();
    let n = request.entries.len();
    proof {
        assert(request.entries@.take(0) =~= Seq::<NatEntry>::empty());
        assert(commands.deep_view() =~~= spec_all_cmds(
            request.entries@.take(0),
            request.device_type,
            vrrp_id,
            request.use_elastic_ip,
            mv,
            dv,
        ));
    }
    let mut k: usize = 0;
    while k < n
        invariant
            n == request.entries@.len(),
            mv == map_view(elastic_mapping@),
            dv == crate::isp::data_view(isp_data@),
            0 <= k <= n,
            commands.deep_view() == spec_all_cmds(
                request.entries@.take(k as int),
                request.device_type,
                vrrp_id,
                request.use_elastic_ip,
                mv,
                dv,
            ),
            sorted_unique(missing.deep_view()),
            forall|x: Seq<char>|
                #![trigger list_has(missing.deep_view(), x)]
                list_has(missing.deep_view(), x) == (request.use_elastic_ip && spec_is_missing(
                    request.entries@.take(k as int),
                    mv,
                    x,
                )),
        decreases n - k,
    {
        let entry = &request.entries[k];
        proof {
            assert(request.entries@.take(k + 1).drop_last() =~= request.entries@.take(k as int));
            assert(request.entries@.take(k + 1).last() == request.entries@[k as int]);
        }
        let elastic: Option<String> = if request.use_elastic_ip {
            match lookup_pair(elastic_mapping, entry.internal_ip.as_str()) {
                Some(v) => Some(v),
                None => {
                    insert_sorted_unique(&mut missing, entry.internal_ip.clone());
                    None
                },
            }
        } else {
            None
        };
        proof {
            assert forall|x: Seq<char>|
                #![trigger list_has(missing.deep_view(), x)]
                list_has(missing.deep_view(), x) == (request.use_elastic_ip && spec_is_missing(
                    request.entries@.take(k + 1),
                    mv,
                    x,
                )) by {
                if request.use_elastic_ip && spec_is_missing(request.entries@.take(k + 1), mv, x) {
                    let i = choose|i: int|
                        0 <= i < request.entries@.take(k + 1).len() && (#[trigger] request.entries@.take(
                            k + 1,
                        )[i]).internal_ip@ == x && spec_lookup(mv, x) is None;
                    if i < k {
                        assert(request.entries@.take(k as int)[i] == request.entries@.take(
                            k + 1,
                        )[i]);
                        assert(spec_is_missing(request.entries@.take(k as int), mv, x));
                    }
                }
                if request.use_elastic_ip && spec_is_missing(request.entries@.take(k as int), mv, x) {
                    let i = choose|i: int|
                        0 <= i < request.entries@.take(k as int).len() && (#[trigger] request.entries@.take(
                            k as int,
                        )[i]).internal_ip@ == x && spec_lookup(mv, x) is None;
                    assert(request.entries@.take(k + 1)[i] == request.entries@.take(k as int)[i]);
                    assert(spec_is_missing(request.entries@.take(k + 1), mv, x));
                }
            }
        }
        let ghost outer_prev = commands.deep_view();
        let ghost pips = request.entries@[k as int].public_ips.deep_view();
        let ghost el = spec_entry_elastic(request.use_elastic_ip, mv, request.entries@[k as int]);
        proof {
            assert(el == match elastic {
                Some(ref v) => Some(v@),
                None => None::<Seq<char>>,
            });
            assert(pips.take(0) =~= Seq::<Seq<char>>::empty());
            assert(commands.deep_view() =~~= outer_prev + spec_entry_cmds(
                request.entries@[k as int],
                pips.take(0),
                request.device_type,
                vrrp_id,
                el,
                dv,
            ));
        }
        let pn = entry.public_ips.len();
        let mut j: usize = 0;
        while j < pn
            invariant
                k < n == request.entries@.len(),
                *entry == request.entries@[k as int],
                pn == entry.public_ips@.len(),
                pips == request.entries@[k as int].public_ips.deep_view(),
                pips.len() == pn,
                mv == map_view(elastic_mapping@),
                dv == crate::isp::data_view(isp_data@),
                el == spec_entry_elastic(request.use_elastic_ip, mv, request.entries@[k as int]),
                el == match elastic {
                    Some(ref v) => Some(v@),
                    None => None::<Seq<char>>,
                },
                0 <= j <= pn,
                commands.deep_view() == outer_prev + spec_entry_cmds(
                    request.entries@[k as int],
                    pips.take(j as int),
                    request.device_type,
                    vrrp_id,
                    el,
                    dv,
                ),
            decreases pn - j,
        {
            proof {
                assert(pips.take(j + 1).drop_last() =~= pips.take(j as int));
                assert(pips.take(j + 1).last() == pips[j as int]);
                assert(pips[j as int] == entry.public_ips@[j as int]@);
            }
            let pip = &entry.public_ips[j];
            let pipc = str_to_chars(pip.as_str());
            let pipt = trim_chars(&pipc);
            let isp_prefix: String = match parse_ipv4(&pipt) {
                Some(a) => match crate::isp::find_isp_for_ip(a, isp_data) {
                    Some(pair) => {
                        let mut pc = str_to_chars(pair.0.as_str());
                        pc.push('_');
                        chars_to_string(&pc)
                    },
                    None => String::new(),
                },
                None => String::new(),
            };
            proof {
                assert(isp_prefix@ =~= spec_isp_prefix(dv, pips[j as int]));
            }
            let cmd: Option<String> = match request.device_type {
                DeviceType::Huawei => build_huawei_command(
                    entry,
                    pip.as_str(),
                    isp_prefix.as_str(),
                    &elastic,
                ),
                DeviceType::H3c => build_h3c_command(
                    entry,
                    pip.as_str(),
                    isp_prefix.as_str(),
                    &elastic,
                    vrrp_id,
                ),
            };
            let ghost step = spec_entry_cmds(
                request.entries@[k as int],
                pips.take(j + 1),
                request.device_type,
                vrrp_id,
                el,
                dv,
            );
            match cmd {
                Some(c) => {
                    let ghost cv = c@;
                    let ghost before_push = commands.deep_view();
                    commands.push(c);
                    proof {
                        assert(commands.deep_view() =~~= before_push.push(cv));
                        let pre = spec_isp_prefix(dv, pips[j as int]);
                        if request.device_type == DeviceType::Huawei {
                            assert(spec_huawei_cmd(
                                request.entries@[k as int],
                                pips[j as int],
                                pre,
                                el,
                            ) == Some(cv));
                        } else {
                            assert(spec_h3c_cmd(
                                request.entries@[k as int],
                                pips[j as int],
                                pre,
                                el,
                                vrrp_id,
                            ) == Some(cv));
                        }
                        assert(step =~~= spec_entry_cmds(
                            request.entries@[k as int],
                            pips.take(j as int),
                            request.device_type,
                            vrrp_id,
                            el,
                            dv,
                        ).push(cv));
                        assert(commands.deep_view() =~~= outer_prev + step);
                    }
                },
                None => {
                    proof {
                        let pre = spec_isp_prefix(dv, pips[j as int]);
                        if request.device_type == DeviceType::Huawei {
                            assert(spec_huawei_cmd(
                                request.entries@[k as int],
                                pips[j as int],
                                pre,
                                el,
                            ) is None);
                        } else {
                            assert(spec_h3c_cmd(
                                request.entries@[k as int],
                                pips[j as int],
                                pre,
                                el,
                                vrrp_id,
                            ) is None);
                        }
                        assert(step =~~= spec_entry_cmds(
                            request.entries@[k as int],
                            pips.take(j as int),
                            request.device_type,
                            vrrp_id,
                            el,
                            dv,
                        ));
                        assert(commands.deep_view() =~~= outer_prev + step);
                    }
                },
            }
            j = j + 1;
        }
        proof {
            assert(pips.take(pn as int) =~= pips);
        }
        k = k + 1;
    }
    proof {
        assert(request.entries@.take(n as int) =~= request.entries@);
    }
    Ok(GenerateNatCommandsResponse { commands, missing_elastic_ips: missing })
}


/// The normalized form of a header or mapping cell.
pub open spec fn spec_norm_name(s: Seq<char>) -> Seq<char> {
    lower_of(spec_trim(s))
}

/// The index of the last header cell whose normalized text equals `name`,
/// among non-empty cells.
pub open spec fn spec_col_index(header: Seq<Seq<char>>, name: Seq<char>) -> Option<int>
    decreases header.len(),
{
    if header.len() == 0 {
        None
    } else if header.last().len() != 0 && spec_norm_name(header.last()) == name {
        Some(header.len() - 1)
    } else {
        spec_col_index(header.drop_last(), name)
    }
}

/// Finds the last header cell bearing the normalized name.
fn find_column_index(header: &Vec<String>, name: &Vec<char>) -> (r: Option<usize>)
    ensures
        match r {
            Some(i) => spec_col_index(header.deep_view(), name@) == Some(i as int),
            None => spec_col_index(header.deep_view(), name@) is None,
        },
{
    let ghost hv = header.deep_view();
    let mut best: Option<usize> = None;
    let n = header.len();
    proof {
        assert(hv.take(0) =~= Seq::<Seq<char>>::empty());
    }
    let mut k: usize = 0;
    while k < n
        invariant
            n == header@.len(),
            hv == header.deep_view(),
            hv.len() == n,
            0 <= k <= n,
            match best {
                Some(i) => spec_col_index(hv.take(k as int), name@) == Some(i as int),
                None => spec_col_index(hv.take(k as int), name@) is None,
            },
        decreases n - k,
    {
        proof {
            assert(hv.take(k + 1).drop_last() =~= hv.take(k as int));
            assert(hv.take(k + 1).last() == hv[k as int]);
            assert(hv[k as int] == header@[k as int]@);
        }
        let cell = &header[k];
        if cell.as_str().unicode_len() != 0 {
            let normalized = normalize_column_name(cell.as_str());
            let nc = str_to_chars(normalized.as_str());
            if crate::text::chars_eq(&nc, name) {
                best = Some(k);
            }
        }
        k = k + 1;
    }
    proof {
        assert(hv.take(n as int) =~= hv);
    }
    best
}

/// Resolves one field of the column mapping to a header position.
fn resolve_field_index(
    column_mapping: &Vec<(String, String)>,
    header: &Vec<String>,
    field: &str,
) -> (r: Result<usize, String>)
    ensures
        match r {
            Ok(i) => spec_lookup(map_view(column_mapping@), field@) matches Some(col)
                && spec_col_index(header.deep_view(), spec_norm_name(col)) == Some(i as int),
            Err(_) => spec_lookup(map_view(column_mapping@), field@) is None || (spec_lookup(
                map_view(column_mapping@),
                field@,
            ) matches Some(col) && spec_col_index(header.deep_view(), spec_norm_name(col)) is None),
        },
{
    let column = match lookup_pair(column_mapping, field) {
        Some(c) => c,
        None => {
            return Err(String::from_str("a required column mapping is missing"));
        },
    };
    let normalized = normalize_column_name(column.as_str());
    let nc = str_to_chars(normalized.as_str());
    match find_column_index(header, &nc) {
        Some(i) => Ok(i),
        None => Err(String::from_str("a mapped column is absent from the header")),
    }
}

/// The text of one cell; absent cells read as empty.
pub open spec fn spec_fetch(row: Seq<Seq<char>>, idx: int) -> Seq<char> {
    if 0 <= idx < row.len() {
        row[idx]
    } else {
        Seq::<char>::empty()
    }
}

/// A cell option: the text when non-blank.
pub open spec fn spec_cell_opt(s: Seq<char>) -> Option<Seq<char>> {
    if spec_trim(s).len() > 0 {
        Some(s)
    } else {
        None
    }
}

/// The raw rows extracted below the header: per sheet row, the five mapped
/// cells, skipping rows whose protocol and both addresses are blank;
/// `(protocol, internal_ip, internal_port, public_ip, public_port, row)`.
pub open spec fn spec_extract(
    data: Seq<Seq<Seq<char>>>,
    hdr: int,
    ip: int,
    ii: int,
    iip: int,
    ipu: int,
    ipp: int,
) -> Seq<(Seq<char>, Seq<char>, Option<Seq<char>>, Seq<char>, Option<Seq<char>>, int)>
    decreases data.len(),
{
    if data.len() == 0 {
        Seq::<(Seq<char>, Seq<char>, Option<Seq<char>>, Seq<char>, Option<Seq<char>>, int)>::empty()
    } else {
        let prev = spec_extract(data.drop_last(), hdr, ip, ii, iip, ipu, ipp);
        let i = data.len() - 1;
        if i <= hdr {
            prev
        } else {
            let row = data.last();
            let proto = spec_fetch(row, ip);
            let internal = spec_fetch(row, ii);
            let public = spec_fetch(row, ipu);
            if spec_trim(proto).len() == 0 && spec_trim(internal).len() == 0 && spec_trim(
                public,
            ).len() == 0 {
                prev
            } else {
                prev.push(
                    (
                        proto,
                        internal,
                        spec_cell_opt(spec_fetch(row, iip)),
                        public,
                        spec_cell_opt(spec_fetch(row, ipp)),
                        i + 1,
                    ),
                )
            }
        }
    }
}

/// What one extracted raw row holds.
pub open spec fn raw_row_matches(
    r: RawNatRow,
    f: (Seq<char>, Seq<char>, Option<Seq<char>>, Seq<char>, Option<Seq<char>>, int),
) -> bool {
    &&& r.protocol@ == f.0
    &&& r.internal_ip@ == f.1
    &&& (match (r.internal_port, f.2) {
        (Some(a), Some(b)) => a@ == b,
        (None, None) => true,
        _ => false,
    })
    &&& r.public_ip@ == f.3
    &&& (match (r.public_port, f.4) {
        (Some(a), Some(b)) => a@ == b,
        (None, None) => true,
        _ => false,
    })
    &&& r.row_index == f.5
}

/// Fetches one mapped cell of a sheet row.
fn fetch_cell(row: &Vec<String>, idx: usize) -> (r: String)
    ensures
        r@ == spec_fetch(row.deep_view(), idx as int),
{
    proof {
        if idx < row@.len() {
            assert(row.deep_view()[idx as int] == row@[idx as int]@);
        }
    }
    if idx < row.len() {
        row[idx].clone()
    } else {
        String::new()
    }
}

/// Extracts the raw mapping rows below the header row, through the named
/// column mapping. Fails when the header row lies outside the sheet, a
/// field of the mapping is absent, or a mapped column is not in the
/// header.
#[verifier::rlimit(100)]
pub fn extract_rows_from_excel(
    rows: &Vec<Vec<String>>,
    header_row_index: usize,
    column_mapping: &Vec<(String, String)>,
) -> (r: Result<Vec<RawNatRow>, String>)
    ensures
        r matches Ok(out) ==> header_row_index < rows@.len() && exists|
            ip: int,
            ii: int,
            iip: int,
            ipu: int,
            ipp: int,
        |
            #![trigger spec_extract(rows.deep_view(), header_row_index as int, ip, ii, iip, ipu, ipp)]
            {
                &&& spec_field_indices(
                    map_view(column_mapping@),
                    rows.deep_view()[header_row_index as int],
                    ip,
                    ii,
                    iip,
                    ipu,
                    ipp,
                )
                &&& out@.len() == spec_extract(
                    rows.deep_view(),
                    header_row_index as int,
                    ip,
                    ii,
                    iip,
                    ipu,
                    ipp,
                ).len()
                &&& forall|k: int|
                    0 <= k < out@.len() ==> raw_row_matches(
                        #[trigger] out@[k],
                        spec_extract(
                            rows.deep_view(),
                            header_row_index as int,
                            ip,
                            ii,
                            iip,
                            ipu,
                            ipp,
                        )[k],
                    )
            },
{
    if header_row_index >= rows.len() {
        return Err(String::from_str("the header row lies outside the sheet"));
    }
    let header = &rows[header_row_index];
    proof {
        assert(rows.deep_view()[header_row_index as int] == rows@[header_row_index as int].deep_view());
    }
    let ip = match resolve_field_index(column_mapping, header, "\u{534f}\u{8bae}") {
        Ok(i) => i,
        Err(e) => {
            return Err(e);
        },
    };
    let ii = match resolve_field_index(column_mapping, header, "\u{4e3b}\u{673a}IP") {
        Ok(i) => i,
        Err(e) => {
            return Err(e);
        },
    };
    let iip = match resolve_field_index(column_mapping, header, "\u{5185}\u{7f51}\u{7aef}\u{53e3}") {
        Ok(i) => i,
        Err(e) => {
            return Err(e);
        },
    };
    let ipu = match resolve_field_index(column_mapping, header, "\u{5916}\u{7f51}IP") {
        Ok(i) => i,
        Err(e) => {
            return Err(e);
        },
    };
    let ipp = match resolve_field_index(column_mapping, header, "\u{5916}\u{7f51}\u{7aef}\u{53e3}") {
        Ok(i) => i,
        Err(e) => {
            return Err(e);
        },
    };
    let ghost dv = rows.deep_view();
    let mut out: Vec<RawNatRow> = Vec::new();
    let n = rows.len();
    proof {
        assert(dv.take(0) =~= Seq::<Seq<Seq<char>>>::empty());
    }
    let mut k: usize = 0;
    while k < n
        invariant
            n == rows@.len(),
            dv == rows.deep_view(),
            dv.len() == n,
            header_row_index < n,
            0 <= k <= n,
            out@.len() == spec_extract(
                dv.take(k as int),
                header_row_index as int,
                ip as int,
                ii as int,
                iip as int,
                ipu as int,
                ipp as int,
            ).len(),
            forall|j: int|
                0 <= j < out@.len() ==> raw_row_matches(
                    #[trigger] out@[j],
                    spec_extract(
                        dv.take(k as int),
                        header_row_index as int,
                        ip as int,
                        ii as int,
                        iip as int,
                        ipu as int,
                        ipp as int,
                    )[j],
                ),
        decreases n - k,
    {
        proof {
            assert(dv.take(k + 1).drop_last() =~= dv.take(k as int));
            assert(dv.take(k + 1).last() == dv[k as int]);
            assert(dv[k as int] == rows@[k as int].deep_view());
        }
        if k > header_row_index {
            let row = &rows[k];
            let protocol = fetch_cell(row, ip);
            let internal_ip = fetch_cell(row, ii);
            let public_ip = fetch_cell(row, ipu);
            let pc = str_to_chars(protocol.as_str());
            let pt = trim_chars(&pc);
            let ic = str_to_chars(internal_ip.as_str());
            let it = trim_chars(&ic);
            let uc = str_to_chars(public_ip.as_str());
            let ut = trim_chars(&uc);
            if pt.len() == 0 && it.len() == 0 && ut.len() == 0 {
            } else {
                let internal_port_raw = fetch_cell(row, iip);
                let public_port_raw = fetch_cell(row, ipp);
                let internal_port = port_text(&Some(internal_port_raw));
                let public_port = port_text(&Some(public_port_raw));
                out.push(
                    RawNatRow {
                        protocol,
                        internal_ip,
                        internal_port,
                        public_ip,
                        public_port,
                        row_index: k + 1,
                    },
                );
            }
        }
        k = k + 1;
    }
    proof {
        assert(dv.take(n as int) =~= dv);
        assert(spec_field_indices(
            map_view(column_mapping@),
            dv[header_row_index as int],
            ip as int,
            ii as int,
            iip as int,
            ipu as int,
            ipp as int,
        ));
    }
    Ok(out)
}

/// How the five field positions come out of the mapping and the header.
pub open spec fn spec_field_indices(
    mapping: Seq<(Seq<char>, Seq<char>)>,
    header: Seq<Seq<char>>,
    ip: int,
    ii: int,
    iip: int,
    ipu: int,
    ipp: int,
) -> bool {
    &&& (spec_lookup(mapping, "\u{534f}\u{8bae}"@) matches Some(c) && spec_col_index(
        header,
        spec_norm_name(c),
    ) == Some(ip))
    &&& (spec_lookup(mapping, "\u{4e3b}\u{673a}IP"@) matches Some(c) && spec_col_index(
        header,
        spec_norm_name(c),
    ) == Some(ii))
    &&& (spec_lookup(mapping, "\u{5185}\u{7f51}\u{7aef}\u{53e3}"@) matches Some(c) && spec_col_index(
        header,
        spec_norm_name(c),
    ) == Some(iip))
    &&& (spec_lookup(mapping, "\u{5916}\u{7f51}IP"@) matches Some(c) && spec_col_index(
        header,
        spec_norm_name(c),
    ) == Some(ipu))
    &&& (spec_lookup(mapping, "\u{5916}\u{7f51}\u{7aef}\u{53e3}"@) matches Some(c) && spec_col_index(
        header,
        spec_norm_name(c),
    ) == Some(ipp))
}

} // verus!
