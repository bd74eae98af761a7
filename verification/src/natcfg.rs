//! Parsing of router NAT server commands, for the two supported command
//! dialects, into structured entries.

use vstd::prelude::*;
use vstd::string::StringExecFns;

use crate::arith::{spec_digits, u64_to_dec, clone_chars};
use crate::text::{
    all_digits, chars_eq_str, chars_to_string, chars_range, replace_all, spec_replace,
    spec_tokens, spec_trim, spec_parse_uint, starts_with, str_to_chars, has_prefix, tokenize,
    trim_chars, parse_uint, split_on, split_char,
};
use crate::wrappers::{cap1_all_of, captures_of, lower_of, lowercase, regex_cap1_all, regex_captures};

verus! {

/// One parsed NAT server mapping.
#[derive(Debug)]
pub struct NatEntry {
    pub name: String,
    pub protocol: String,
    pub global_ip: String,
    pub global_port: String,
    pub inside_ip: String,
    pub inside_port: String,
    pub vrrp: Option<String>,
    pub rule: Option<String>,
    pub description: Option<String>,
    pub command: String,
}

/// The outcome of parsing a whole configuration text.
#[derive(Debug)]
pub struct NatParseResult {
    pub success_entries: Vec<NatEntry>,
    pub failed_entries: Vec<String>,
    pub device_type: String,
}

/// The command parser; all its state lives in its arguments.
pub struct NATParser;

/// The keywords that end the name part and introduce fields.
pub open spec fn spec_is_keyword(t: Seq<char>) -> bool {
    ||| t == "protocol"@
    ||| t == "global"@
    ||| t == "inside"@
    ||| t == "zone"@
    ||| t == "acl"@
    ||| t == "no-reverse"@
    ||| t == "reversible"@
    ||| t == "unr-route"@
    ||| t == "vpn-instance"@
}

/// Whether every character of the token is a decimal digit (an empty
/// token counts).
pub open spec fn spec_is_port_number(t: Seq<char>) -> bool {
    all_digits(t)
}

/// Tests a token against the field keywords.
pub fn is_huawei_keyword(token: &Vec<char>) -> (r: bool)
    ensures
        r == spec_is_keyword(token@),
{
    chars_eq_str(token, "protocol") || chars_eq_str(token, "global") || chars_eq_str(
        token,
        "inside",
    ) || chars_eq_str(token, "zone") || chars_eq_str(token, "acl") || chars_eq_str(
        token,
        "no-reverse",
    ) || chars_eq_str(token, "reversible") || chars_eq_str(token, "unr-route") || chars_eq_str(
        token,
        "vpn-instance",
    )
}

/// Tests whether a token is all digits.
pub fn is_port_number(token: &Vec<char>) -> (r: bool)
    ensures
        r == spec_is_port_number(token@),
{
    let n = token.len();
    for i in 0..n
        invariant
            n == token@.len(),
            forall|j: int| 0 <= j < i ==> crate::arith::is_digit(#[trigger] token@[j]),
    {
        let c = token[i];
        if !('0' <= c && c <= '9') {
            proof {
                assert(!crate::arith::is_digit(token@[i as int]));
            }
            return false;
        }
    }
    true
}

/// The placeholder that stands for the `i`-th quoted value.
pub open spec fn spec_placeholder(i: int) -> Seq<char> {
    "QUOTED_NAME_"@ + spec_digits(i as nat)
}

/// Quoted values pulled from the command, in match order.
pub open spec fn spec_unwrap_somes(s: Seq<Option<Seq<char>>>) -> Seq<Seq<char>>
    decreases s.len(),
{
    if s.len() == 0 {
        Seq::<Seq<char>>::empty()
    } else {
        let p = spec_unwrap_somes(s.drop_last());
        match s.last() {
            Some(x) => p.push(x),
            None => p,
        }
    }
}

/// The command with each quoted value replaced by its placeholder, value
/// by value in order.
pub open spec fn spec_apply_repl(cmd: Seq<char>, qs: Seq<Seq<char>>, i: int) -> Seq<char>
    decreases qs.len() - i,
        when 0 <= i <= qs.len()
{
    if i >= qs.len() {
        cmd
    } else {
        spec_apply_repl(
            spec_replace(cmd, seq!['"'] + qs[i] + seq!['"'], spec_placeholder(i)),
            qs,
            i + 1,
        )
    }
}

/// The preprocessed command and its quoted values: quoted phrases become
/// single placeholder tokens so that tokenizing keeps them whole.
pub open spec fn spec_preprocess(cmd: Seq<char>) -> (Seq<char>, Seq<Seq<char>>) {
    let qs = spec_unwrap_somes(cap1_all_of("\"([^\"]+)\""@, cmd));
    (spec_apply_repl(cmd, qs, 0), qs)
}

/// Replaces quoted phrases by placeholders.
pub fn preprocess_command(command: &str) -> (r: (Vec<char>, Vec<String>))
    ensures
        r.0@ == spec_preprocess(command@).0,
        r.1.deep_view() == spec_preprocess(command@).1,
{
    let caps = regex_cap1_all("\"([^\"]+)\"", command);
    let ghost capseq = cap1_all_of("\"([^\"]+)\""@, command@);
    let mut quoted: Vec<String> = Vec::new();
    let n = caps.len();
    proof {
        assert(caps.deep_view().take(0) =~= Seq::<Option<Seq<char>>>::empty());
        assert(quoted.deep_view() =~~= spec_unwrap_somes(caps.deep_view().take(0)));
    }
    let mut k: usize = 0;
    while k < n
        invariant
            n == caps@.len(),
            caps.deep_view() == capseq,
            caps.deep_view().len() == n,
            0 <= k <= n,
            quoted.deep_view() == spec_unwrap_somes(capseq.take(k as int)),
        decreases n - k,
    {
        let ghost prev = quoted.deep_view();
        proof {
            assert(capseq.take(k + 1).drop_last() =~= capseq.take(k as int));
            assert(capseq.take(k + 1).last() == capseq[k as int]);
            assert(caps.deep_view()[k as int] == caps@[k as int].deep_view());
        }
        match &caps[k] {
            Some(q) => {
                let qc = q.clone();
                quoted.push(qc);
                proof {
                    assert(quoted.deep_view() =~~= prev.push(caps@[k as int]->0@));
                }
            },
            None => {},
        }
        k = k + 1;
    }
    proof {
        assert(capseq.take(n as int) =~= capseq);
    }
    let ghost qs = spec_unwrap_somes(capseq);
    let mut processed = str_to_chars(command);
    let qn = quoted.len();
    let mut j: usize = 0;
    while j < qn
        invariant
            qn == quoted@.len(),
            quoted.deep_view() == qs,
            qs.len() == qn,
            0 <= j <= qn,
            spec_apply_repl(command@, qs, 0) == spec_apply_repl(processed@, qs, j as int),
        decreases qn - j,
    {
        let mut from: Vec<char> = Vec::new();
        from.push('"');
        let mut qchars = str_to_chars(quoted[j].as_str());
        from.append(&mut qchars);
        from.push('"');
        proof {
            assert(from@ =~= seq!['"'] + qs[j as int] + seq!['"']);
        }
        let mut to = str_to_chars("QUOTED_NAME_");
        let mut digits = u64_to_dec(j as u64);
        to.append(&mut digits);
        proof {
            assert(to@ =~= spec_placeholder(j as int));
        }
        processed = replace_all(&processed, &from, &to);
        j = j + 1;
    }
    proof {
        assert(spec_apply_repl(processed@, qs, qn as int) == processed@);
    }
    (processed, quoted)
}

/// A placeholder token restored to its quoted value; other tokens stand.
pub open spec fn spec_restore(tok: Seq<char>, qs: Seq<Seq<char>>) -> Seq<char> {
    let p = "QUOTED_NAME_"@;
    if starts_with(tok, p) && (spec_parse_uint(tok.skip(p.len() as int), 0xffff_ffff) matches Some(
        i,
    ) && i < qs.len()) {
        qs[spec_parse_uint(tok.skip(p.len() as int), 0xffff_ffff)->0 as int]
    } else {
        tok
    }
}

/// Restores a placeholder token.
pub fn restore_token(tok: &Vec<char>, quoted: &Vec<String>) -> (r: String)
    ensures
        r@ == spec_restore(tok@, quoted.deep_view()),
{
    let prefix = str_to_chars("QUOTED_NAME_");
    if has_prefix(tok, &prefix) {
        let rest = chars_range(tok, prefix.len(), tok.len());
        proof {
            assert(rest@ =~= tok@.skip("QUOTED_NAME_"@.len() as int));
        }
        match parse_uint(&rest, 0xffff_ffff) {
            Some(i) => {
                if (i as usize) < quoted.len() {
                    proof {
                        assert(quoted.deep_view()[i as int] == quoted@[i as int]@);
                    }
                    return quoted[i as usize].clone();
                }
            },
            None => {},
        }
    }
    chars_to_string(tok)
}

/// The huawei field state carried across the keyword scan:
/// `(protocol, global_ip, global_port, inside_ip, inside_port)`.
pub open spec fn spec_hw_scan(
    toks: Seq<Seq<char>>,
    qs: Seq<Seq<char>>,
    i: int,
    st: (Seq<char>, Seq<char>, Seq<char>, Seq<char>, Seq<char>),
) -> (Seq<char>, Seq<char>, Seq<char>, Seq<char>, Seq<char>)
    decreases toks.len() - i,
        when 0 <= i
{
    if i >= toks.len() {
        st
    } else if toks[i] == "protocol"@ {
        if i + 1 < toks.len() {
            spec_hw_scan(toks, qs, i + 2, (spec_restore(toks[i + 1], qs), st.1, st.2, st.3, st.4))
        } else {
            spec_hw_scan(toks, qs, i + 1, st)
        }
    } else if toks[i] == "global"@ {
        if i + 1 < toks.len() {
            let gip = spec_restore(toks[i + 1], qs);
            let j = i + 2;
            if j < toks.len() && !spec_is_keyword(toks[j]) {
                let first = spec_restore(toks[j], qs);
                if j + 1 < toks.len() && !spec_is_keyword(toks[j + 1]) && spec_is_port_number(
                    toks[j + 1],
                ) && spec_is_port_number(first) {
                    let second = spec_restore(toks[j + 1], qs);
                    spec_hw_scan(
                        toks,
                        qs,
                        j + 2,
                        (st.0, gip, first + seq!['-'] + second, st.3, st.4),
                    )
                } else {
                    spec_hw_scan(toks, qs, j + 1, (st.0, gip, first, st.3, st.4))
                }
            } else {
                spec_hw_scan(toks, qs, j, (st.0, gip, st.2, st.3, st.4))
            }
        } else {
            spec_hw_scan(toks, qs, i + 1, st)
        }
    } else if toks[i] == "inside"@ {
        if i + 1 < toks.len() {
            let iip = spec_restore(toks[i + 1], qs);
            let j = i + 2;
            if j < toks.len() && !spec_is_keyword(toks[j]) {
                let first = spec_restore(toks[j], qs);
                if j + 1 < toks.len() && !spec_is_keyword(toks[j + 1]) && spec_is_port_number(
                    toks[j + 1],
                ) && spec_is_port_number(first) {
                    let second = spec_restore(toks[j + 1], qs);
                    spec_hw_scan(
                        toks,
                        qs,
                        j + 2,
                        (st.0, st.1, st.2, iip, first + seq!['-'] + second),
                    )
                } else {
                    spec_hw_scan(toks, qs, j + 1, (st.0, st.1, st.2, iip, first))
                }
            } else {
                spec_hw_scan(toks, qs, j, (st.0, st.1, st.2, iip, st.4))
            }
        } else {
            spec_hw_scan(toks, qs, i + 1, st)
        }
    } else if toks[i] == "zone"@ || toks[i] == "acl"@ {
        if i + 1 < toks.len() && !spec_is_keyword(toks[i + 1]) {
            spec_hw_scan(toks, qs, i + 2, st)
        } else {
            spec_hw_scan(toks, qs, i + 1, st)
        }
    } else {
        spec_hw_scan(toks, qs, i + 1, st)
    }
}

/// The index of the first keyword token at or past `i`.
pub open spec fn spec_name_end(toks: Seq<Seq<char>>, i: int) -> int
    decreases toks.len() - i,
        when 0 <= i
{
    if i >= toks.len() || spec_is_keyword(toks[i]) {
        i
    } else {
        spec_name_end(toks, i + 1)
    }
}

/// The default entry name when the command carries none.
pub open spec fn spec_default_name(
    st: (Seq<char>, Seq<char>, Seq<char>, Seq<char>, Seq<char>),
) -> Seq<char> {
    let gp = if st.2.len() == 0 {
        "any"@
    } else {
        st.2
    };
    let ip = if st.4.len() == 0 {
        "any"@
    } else {
        st.4
    };
    st.0 + seq![' '] + st.1 + seq![':'] + gp + " -> "@ + st.3 + seq![':'] + ip
}

/// The parse of one huawei command:
/// `(name, protocol, global_ip, global_port, inside_ip, inside_port)`.
pub open spec fn spec_parse_huawei(cmd: Seq<char>) -> Option<
    (Seq<char>, Seq<char>, Seq<char>, Seq<char>, Seq<char>, Seq<char>),
> {
    let pre = spec_preprocess(cmd);
    let toks = spec_tokens(pre.0);
    let qs = pre.1;
    if toks.len() < 2 || toks[0] != "nat"@ || toks[1] != "server"@ {
        None
    } else {
        let name0 = if 2 < toks.len() && !spec_is_keyword(toks[2]) {
            Some(spec_restore(toks[2], qs))
        } else {
            None
        };
        let start = spec_name_end(toks, 2);
        let st = spec_hw_scan(
            toks,
            qs,
            start,
            ("any"@, Seq::<char>::empty(), "any"@, Seq::<char>::empty(), "any"@),
        );
        if st.1.len() == 0 || st.3.len() == 0 {
            None
        } else {
            let name = match name0 {
                Some(n) => n,
                None => spec_default_name(st),
            };
            Some((name, st.0, st.1, st.2, st.3, st.4))
        }
    }
}

/// Scans the keyword fields, mirroring the scan specification.
fn hw_scan(
    toks: &Vec<Vec<char>>,
    quoted: &Vec<String>,
    i: usize,
    st: (String, String, String, String, String),
) -> (r: (String, String, String, String, String))
    ensures
        ({
            let sp = spec_hw_scan(
                toks.deep_view(),
                quoted.deep_view(),
                i as int,
                (st.0@, st.1@, st.2@, st.3@, st.4@),
            );
            r.0@ == sp.0 && r.1@ == sp.1 && r.2@ == sp.2 && r.3@ == sp.3 && r.4@ == sp.4
        }),
    decreases toks@.len() - i,
{
    proof {
        assert(toks.deep_view().len() == toks@.len());
        assert forall|k: int| 0 <= k < toks@.len() implies #[trigger] toks.deep_view()[k]
            == toks@[k]@ by {}
    }
    if i >= toks.len() {
        return st;
    }
    let tok = &toks[i];
    if chars_eq_str(tok, "protocol") {
        if i + 1 < toks.len() {
            let p = restore_token(&toks[i + 1], quoted);
            hw_scan(toks, quoted, i + 2, (p, st.1, st.2, st.3, st.4))
        } else {
            hw_scan(toks, quoted, i + 1, st)
        }
    } else if chars_eq_str(tok, "global") {
        if i + 1 < toks.len() {
            let gip = restore_token(&toks[i + 1], quoted);
            let j = i + 2;
            if j < toks.len() && !is_huawei_keyword(&toks[j]) {
                let first = restore_token(&toks[j], quoted);
                let first_chars = str_to_chars(first.as_str());
                if j + 1 < toks.len() && !is_huawei_keyword(&toks[j + 1]) && is_port_number(
                    &toks[j + 1],
                ) && is_port_number(&first_chars) {
                    let second = restore_token(&toks[j + 1], quoted);
                    let mut gp = str_to_chars(first.as_str());
                    gp.push('-');
                    let mut sc = str_to_chars(second.as_str());
                    gp.append(&mut sc);
                    proof {
                        assert(gp@ =~= first@ + seq!['-'] + second@);
                    }
                    hw_scan(
                        toks,
                        quoted,
                        j + 2,
                        (st.0, gip, chars_to_string(&gp), st.3, st.4),
                    )
                } else {
                    hw_scan(toks, quoted, j + 1, (st.0, gip, first, st.3, st.4))
                }
            } else {
                hw_scan(toks, quoted, j, (st.0, gip, st.2, st.3, st.4))
            }
        } else {
            hw_scan(toks, quoted, i + 1, st)
        }
    } else if chars_eq_str(tok, "inside") {
        if i + 1 < toks.len() {
            let iip = restore_token(&toks[i + 1], quoted);
            let j = i + 2;
            if j < toks.len() && !is_huawei_keyword(&toks[j]) {
                let first = restore_token(&toks[j], quoted);
                let first_chars = str_to_chars(first.as_str());
                if j + 1 < toks.len() && !is_huawei_keyword(&toks[j + 1]) && is_port_number(
                    &toks[j + 1],
                ) && is_port_number(&first_chars) {
                    let second = restore_token(&toks[j + 1], quoted);
                    let mut ip = str_to_chars(first.as_str());
                    ip.push('-');
                    let mut sc = str_to_chars(second.as_str());
                    ip.append(&mut sc);
                    proof {
                        assert(ip@ =~= first@ + seq!['-'] + second@);
                    }
                    hw_scan(
                        toks,
                        quoted,
                        j + 2,
                        (st.0, st.1, st.2, iip, chars_to_string(&ip)),
                    )
                } else {
                    hw_scan(toks, quoted, j + 1, (st.0, st.1, st.2, iip, first))
                }
            } else {
                hw_scan(toks, quoted, j, (st.0, st.1, st.2, iip, st.4))
            }
        } else {
            hw_scan(toks, quoted, i + 1, st)
        }
    } else if chars_eq_str(tok, "zone") || chars_eq_str(tok, "acl") {
        if i + 1 < toks.len() && !is_huawei_keyword(&toks[i + 1]) {
            hw_scan(toks, quoted, i + 2, st)
        } else {
            hw_scan(toks, quoted, i + 1, st)
        }
    } else {
        hw_scan(toks, quoted, i + 1, st)
    }
}

/// First keyword position at or past `i`.
fn name_end(toks: &Vec<Vec<char>>, i: usize) -> (r: usize)
    requires
        i <= toks@.len(),
    ensures
        r == spec_name_end(toks.deep_view(), i as int),
        i <= r <= toks@.len(),
    decreases toks@.len() - i,
{
    proof {
        assert(toks.deep_view().len() == toks@.len());
        if i < toks@.len() {
            assert(toks.deep_view()[i as int] == toks@[i as int]@);
        }
    }
    if i >= toks.len() || is_huawei_keyword(&toks[i]) {
        i
    } else {
        name_end(toks, i + 1)
    }
}

impl NATParser {
    /// Parses one huawei-dialect command: tokens after `nat server`, an
    /// optional name, then keyword-introduced fields. Fails when either
    /// address is missing.
    pub fn parse_huawei_command(command: &str) -> (r: Option<NatEntry>)
        ensures
            match r {
                Some(e) => spec_parse_huawei(command@) matches Some(f) && e.name@ == f.0
                    && e.protocol@ == f.1 && e.global_ip@ == f.2 && e.global_port@ == f.3
                    && e.inside_ip@ == f.4 && e.inside_port@ == f.5 && e.vrrp is None
                    && e.rule is None && e.description is None && e.command@ == command@,
                None => spec_parse_huawei(command@) is None,
            },
    {
        let (processed, quoted) = preprocess_command(command);
        let toks = tokenize(&processed);
        proof {
            assert(toks.deep_view().len() == toks@.len());
            if toks@.len() > 0 {
                assert(toks.deep_view()[0int] == toks@[0int]@);
            }
            if toks@.len() > 1 {
                assert(toks.deep_view()[1int] == toks@[1int]@);
            }
            if toks@.len() > 2 {
                assert(toks.deep_view()[2int] == toks@[2int]@);
            }
        }
        if toks.len() < 2 || !chars_eq_str(&toks[0], "nat") || !chars_eq_str(&toks[1], "server") {
            return None;
        }
        let name0: Option<String> = if 2 < toks.len() && !is_huawei_keyword(&toks[2]) {
            Some(restore_token(&toks[2], &quoted))
        } else {
            None
        };
        let start = name_end(&toks, 2);
        let st = hw_scan(
            &toks,
            &quoted,
            start,
            (
                String::from_str("any"),
                String::new(),
                String::from_str("any"),
                String::new(),
                String::from_str("any"),
            ),
        );
        if st.1.as_str().unicode_len() == 0 || st.3.as_str().unicode_len() == 0 {
            return None;
        }
        let name: String = match name0 {
            Some(n) => n,
            None => {
                let mut v = str_to_chars(st.0.as_str());
                v.push(' ');
                let mut gip = str_to_chars(st.1.as_str());
                v.append(&mut gip);
                v.push(':');
                if st.2.as_str().unicode_len() == 0 {
                    let mut anyc = str_to_chars("any");
                    v.append(&mut anyc);
                } else {
                    let mut gpc = str_to_chars(st.2.as_str());
                    v.append(&mut gpc);
                }
                let mut arrow = str_to_chars(" -> ");
                v.append(&mut arrow);
                let mut iip = str_to_chars(st.3.as_str());
                v.append(&mut iip);
                v.push(':');
                if st.4.as_str().unicode_len() == 0 {
                    let mut anyc = str_to_chars("any");
                    v.append(&mut anyc);
                } else {
                    let mut ipc = str_to_chars(st.4.as_str());
                    v.append(&mut ipc);
                }
                proof {
                    assert(v@ =~= spec_default_name((st.0@, st.1@, st.2@, st.3@, st.4@)));
                }
                chars_to_string(&v)
            },
        };
        Some(
            NatEntry {
                name,
                protocol: st.0,
                global_ip: st.1,
                global_port: st.2,
                inside_ip: st.3,
                inside_port: st.4,
                vrrp: None,
                rule: None,
                description: None,
                command: String::from_str(command),
            },
        )
    }
}


/// Group one of the first match of a pattern, through the named captures.
pub open spec fn spec_cap1(pat: Seq<char>, text: Seq<char>) -> Option<Seq<char>> {
    match captures_of(pat, text) {
        None => None,
        Some(groups) => if groups.len() > 1 {
            groups[1]
        } else {
            None
        },
    }
}

/// Fetches group one of the first match.
fn capture_group1(pat: &str, text: &str) -> (r: Option<String>)
    ensures
        match r {
            Some(s) => spec_cap1(pat@, text@) == Some(s@),
            None => spec_cap1(pat@, text@) is None,
        },
{
    match regex_captures(pat, text) {
        None => None,
        Some(groups) => {
            proof {
                assert(groups.deep_view().len() == groups@.len());
                if groups@.len() > 1 {
                    assert(groups.deep_view()[1int] == groups@[1int].deep_view());
                }
            }
            if groups.len() > 1 {
                match &groups[1] {
                    Some(s) => Some(s.clone()),
                    None => None,
                }
            } else {
                None
            }
        },
    }
}

/// The h3c port fields: both ranges from the four-group pattern, else both
/// singles from the two-group pattern, else `any`.
pub open spec fn spec_h3c_ports(cmd: Seq<char>) -> (Seq<char>, Seq<char>) {
    let quad = captures_of(
        "global\\s+\\S+\\s+(\\d+)\\s+(\\d+)\\s+inside\\s+\\S+\\s+(\\d+)\\s+(\\d+)"@,
        cmd,
    );
    if quad matches Some(g) && g.len() >= 5 && g[1] is Some && g[2] is Some && g[3] is Some
        && g[4] is Some {
        let g = quad->0;
        (g[1]->0 + seq!['-'] + g[2]->0, g[3]->0 + seq!['-'] + g[4]->0)
    } else {
        let two = captures_of("global\\s+\\S+\\s+(\\d+)\\s+inside\\s+\\S+\\s+(\\d+)"@, cmd);
        if two matches Some(g) && g.len() >= 3 && g[1] is Some && g[2] is Some {
            let g = two->0;
            (g[1]->0, g[2]->0)
        } else {
            ("any"@, "any"@)
        }
    }
}

/// The parse of one h3c command:
/// `(name, protocol, global_ip, global_port, inside_ip, inside_port,
///   vrrp, rule, description)`.
pub open spec fn spec_parse_h3c(cmd: Seq<char>) -> Option<
    (Seq<char>, Seq<char>, Seq<char>, Seq<char>, Seq<char>, Seq<char>, Seq<char>, Seq<char>, Seq<
        char,
    >),
> {
    let protocol = match spec_cap1("\\bprotocol\\s+(\\S+)"@, cmd) {
        Some(p) => p,
        None => "any"@,
    };
    match spec_cap1("\\bglobal\\s+(\\S+)"@, cmd) {
        None => None,
        Some(global_ip) => match spec_cap1("\\binside\\s+(\\S+)"@, cmd) {
            None => None,
            Some(inside_ip) => {
                let rule = match spec_cap1("\\brule\\s+(\\S+)"@, cmd) {
                    Some(x) => x,
                    None => "-"@,
                };
                let vrrp = match spec_cap1("\\bvrrp\\s+(\\d+)"@, cmd) {
                    Some(x) => x,
                    None => "-"@,
                };
                let description = match spec_cap1(
                    "description\\s+(.+?)(?:\\s+counting|\\s+reversible|$)"@,
                    cmd,
                ) {
                    Some(x) => if spec_trim(x).len() > 0 {
                        spec_trim(x)
                    } else {
                        "-"@
                    },
                    None => "-"@,
                };
                let ports = if lower_of(protocol) != "any"@ {
                    spec_h3c_ports(cmd)
                } else {
                    ("any"@, "any"@)
                };
                Some(
                    (
                        rule,
                        protocol,
                        global_ip,
                        ports.0,
                        inside_ip,
                        ports.1,
                        vrrp,
                        rule,
                        description,
                    ),
                )
            },
        },
    }
}

impl NATParser {
    /// Parses one h3c-dialect command by its field patterns. Fails when
    /// either address pattern finds nothing.
    pub fn parse_h3c_command(command: &str) -> (r: Option<NatEntry>)
        ensures
            match r {
                Some(e) => spec_parse_h3c(command@) matches Some(f) && e.name@ == f.0
                    && e.protocol@ == f.1 && e.global_ip@ == f.2 && e.global_port@ == f.3
                    && e.inside_ip@ == f.4 && e.inside_port@ == f.5 && (e.vrrp matches Some(v)
                    && v@ == f.6) && (e.rule matches Some(x) && x@ == f.7) && (
                e.description matches Some(d) && d@ == f.8) && e.command@ == command@,
                None => spec_parse_h3c(command@) is None,
            },
    {
        let protocol: String = match capture_group1("\\bprotocol\\s+(\\S+)", command) {
            Some(p) => p,
            None => String::from_str("any"),
        };
        let global_ip = match capture_group1("\\bglobal\\s+(\\S+)", command) {
            Some(x) => x,
            None => {
                return None;
            },
        };
        let inside_ip = match capture_group1("\\binside\\s+(\\S+)", command) {
            Some(x) => x,
            None => {
                return None;
            },
        };
        let rule: String = match capture_group1("\\brule\\s+(\\S+)", command) {
            Some(x) => x,
            None => String::from_str("-"),
        };
        let vrrp: String = match capture_group1("\\bvrrp\\s+(\\d+)", command) {
            Some(x) => x,
            None => String::from_str("-"),
        };
        let description: String = match capture_group1(
            "description\\s+(.+?)(?:\\s+counting|\\s+reversible|$)",
            command,
        ) {
            Some(x) => {
                let xc = str_to_chars(x.as_str());
                let t = trim_chars(&xc);
                if t.len() > 0 {
                    chars_to_string(&t)
                } else {
                    String::from_str("-")
                }
            },
            None => String::from_str("-"),
        };
        let lowered = lowercase(protocol.as_str());
        let lc = str_to_chars(lowered.as_str());
        let (global_port, inside_port): (String, String) = if !chars_eq_str(&lc, "any") {
            h3c_ports(command)
        } else {
            (String::from_str("any"), String::from_str("any"))
        };
        Some(
            NatEntry {
                name: rule.clone(),
                protocol,
                global_ip,
                global_port,
                inside_ip,
                inside_port,
                vrrp: Some(vrrp),
                rule: Some(rule),
                description: Some(description),
                command: String::from_str(command),
            },
        )
    }

    /// Walks a configuration text line by line, keeping the lines that
    /// begin with `nat server`, and parses each with the named dialect;
    /// lines that fail to parse, and every such line under an unknown
    /// dialect, are collected as failures.
    pub fn parse_config(text: &str, device_type: &str) -> (r: NatParseResult)
        ensures
            r.device_type@ == device_type@,
            ({
                let split = spec_config_split(spec_config_lines(text@), device_type@);
                &&& r.failed_entries.deep_view() == split.1
                &&& r.success_entries@.len() == split.0.len()
                &&& forall|i: int|
                    0 <= i < split.0.len() ==> huawei_or_h3c_entry_matches(
                        #[trigger] r.success_entries@[i],
                        split.0[i],
                        device_type@,
                    )
            }),
    {
        let chars = str_to_chars(text);
        let lines = split_lines(&chars);
        let ghost lineseq = spec_config_lines(text@);
        let mut success_entries: Vec<NatEntry> = Vec::new();
        let mut failed_entries: Vec<String> = Vec::new();
        let n = lines.len();
        proof {
            assert(lines.deep_view().take(0) =~= Seq::<Seq<char>>::empty());
            assert(failed_entries.deep_view() =~~= spec_config_split(lineseq.take(0), device_type@).1);
        }
        let mut k: usize = 0;
        while k < n
            invariant
                n == lines@.len(),
                lines.deep_view() == lineseq,
                lineseq.len() == n,
                0 <= k <= n,
                failed_entries.deep_view() == spec_config_split(lineseq.take(k as int), device_type@).1,
                success_entries@.len() == spec_config_split(lineseq.take(k as int), device_type@).0.len(),
                forall|i: int|
                    0 <= i < success_entries@.len() ==> huawei_or_h3c_entry_matches(
                        #[trigger] success_entries@[i],
                        spec_config_split(lineseq.take(k as int), device_type@).0[i],
                        device_type@,
                    ),
            decreases n - k,
        {
            let ghost prevsplit = spec_config_split(lineseq.take(k as int), device_type@);
            proof {
                assert(lineseq.take(k + 1).drop_last() =~= lineseq.take(k as int));
                assert(lineseq.take(k + 1).last() == lineseq[k as int]);
                assert(lines.deep_view()[k as int] == lines@[k as int]@);
            }
            let line = trim_chars(&lines[k]);
            let prefix = str_to_chars("nat server");
            if line.len() > 0 && has_prefix(&line, &prefix) {
                let line_str = chars_to_string(&line);
                if chars_eq_str(&str_to_chars(device_type), "huawei") {
                    proof {
                        assert(device_type@ == "huawei"@);
                    }
                    match Self::parse_huawei_command(line_str.as_str()) {
                        Some(e) => {
                            success_entries.push(e);
                        },
                        None => {
                            failed_entries.push(line_str);
                        },
                    }
                } else if chars_eq_str(&str_to_chars(device_type), "h3c") {
                    proof {
                        assert(device_type@ == "h3c"@);
                    }
                    match Self::parse_h3c_command(line_str.as_str()) {
                        Some(e) => {
                            success_entries.push(e);
                        },
                        None => {
                            failed_entries.push(line_str);
                        },
                    }
                } else {
                    failed_entries.push(line_str);
                }
            }
            proof {
                assert(failed_entries.deep_view() =~~= spec_config_split(
                    lineseq.take(k + 1),
                    device_type@,
                ).1);
            }
            k = k + 1;
        }
        proof {
            assert(lineseq.take(n as int) =~= lineseq);
        }
        NatParseResult {
            success_entries,
            failed_entries,
            device_type: String::from_str(device_type),
        }
    }
}

/// Both port fields from the h3c patterns.
fn h3c_ports(command: &str) -> (r: (String, String))
    ensures
        r.0@ == spec_h3c_ports(command@).0,
        r.1@ == spec_h3c_ports(command@).1,
{
    match regex_captures(
        "global\\s+\\S+\\s+(\\d+)\\s+(\\d+)\\s+inside\\s+\\S+\\s+(\\d+)\\s+(\\d+)",
        command,
    ) {
        Some(g) => {
            proof {
                assert(g.deep_view().len() == g@.len());
                assert forall|k: int| 0 <= k < g@.len() implies #[trigger] g.deep_view()[k]
                    == g@[k].deep_view() by {}
            }
            if g.len() >= 5 {
                match (&g[1], &g[2], &g[3], &g[4]) {
                    (Some(a), Some(b), Some(c), Some(d)) => {
                        let mut gp = str_to_chars(a.as_str());
                        gp.push('-');
                        let mut bc = str_to_chars(b.as_str());
                        gp.append(&mut bc);
                        let mut ip = str_to_chars(c.as_str());
                        ip.push('-');
                        let mut dc = str_to_chars(d.as_str());
                        ip.append(&mut dc);
                        proof {
                            assert(gp@ =~= a@ + seq!['-'] + b@);
                            assert(ip@ =~= c@ + seq!['-'] + d@);
                        }
                        return (chars_to_string(&gp), chars_to_string(&ip));
                    },
                    _ => {},
                }
            }
            h3c_ports_single(command)
        },
        None => h3c_ports_single(command),
    }
}

/// The two-group fallback of the port patterns.
fn h3c_ports_single(command: &str) -> (r: (String, String))
    requires
        !(captures_of(
            "global\\s+\\S+\\s+(\\d+)\\s+(\\d+)\\s+inside\\s+\\S+\\s+(\\d+)\\s+(\\d+)"@,
            command@,
        ) matches Some(g) && g.len() >= 5 && g[1] is Some && g[2] is Some && g[3] is Some
            && g[4] is Some),
    ensures
        r.0@ == spec_h3c_ports(command@).0,
        r.1@ == spec_h3c_ports(command@).1,
{
    match regex_captures("global\\s+\\S+\\s+(\\d+)\\s+inside\\s+\\S+\\s+(\\d+)", command) {
        Some(g) => {
            proof {
                assert(g.deep_view().len() == g@.len());
                assert forall|k: int| 0 <= k < g@.len() implies #[trigger] g.deep_view()[k]
                    == g@[k].deep_view() by {}
            }
            if g.len() >= 3 {
                match (&g[1], &g[2]) {
                    (Some(a), Some(b)) => {
                        return (a.clone(), b.clone());
                    },
                    _ => {},
                }
            }
            (String::from_str("any"), String::from_str("any"))
        },
        None => (String::from_str("any"), String::from_str("any")),
    }
}

/// The lines of a configuration text: split at newlines, with a carriage
/// return stripped from each end and no final empty line.
pub open spec fn spec_config_lines(s: Seq<char>) -> Seq<Seq<char>> {
    let parts = split_on(s, '\n');
    let kept = if parts.last().len() == 0 {
        parts.drop_last()
    } else {
        parts
    };
    kept.map_values(|l: Seq<char>| strip_cr(l))
}

/// One line without its trailing carriage return.
pub open spec fn strip_cr(l: Seq<char>) -> Seq<char> {
    if l.len() > 0 && l.last() == '\r' {
        l.drop_last()
    } else {
        l
    }
}

/// Splits text into lines.
fn split_lines(v: &Vec<char>) -> (r: Vec<Vec<char>>)
    ensures
        r.deep_view() == spec_config_lines(v@),
{
    let parts = split_char(v, '\n');
    let mut kept = parts;
    proof {
        assert(kept.deep_view().last() == kept@[kept@.len() - 1]@);
    }
    if kept[kept.len() - 1].len() == 0 {
        kept.pop();
    }
    let ghost keptseq = kept.deep_view();
    let mut r: Vec<Vec<char>> = Vec::new();
    let n = kept.len();
    for i in 0..n
        invariant
            n == kept@.len(),
            kept.deep_view() == keptseq,
            keptseq.len() == n,
            r.deep_view() =~~= keptseq.take(i as int).map_values(|l: Seq<char>| strip_cr(l)),
    {
        proof {
            assert(kept.deep_view()[i as int] == kept@[i as int]@);
        }
        let piece = &kept[i];
        let stripped: Vec<char> = if piece.len() > 0 && piece[piece.len() - 1] == '\r' {
            chars_range(piece, 0, piece.len() - 1)
        } else {
            clone_chars(piece)
        };
        proof {
            assert(piece@.subrange(0, piece@.len() - 1) =~= piece@.drop_last());
            assert(stripped@ == strip_cr(kept.deep_view()[i as int]));
        }
        r.push(stripped);
        proof {
            assert(keptseq.take(i + 1).map_values(|l: Seq<char>| strip_cr(l)) =~~= keptseq.take(
                i as int,
            ).map_values(|l: Seq<char>| strip_cr(l)).push(strip_cr(keptseq[i as int])));
            assert(r.deep_view() =~~= keptseq.take(i + 1).map_values(|l: Seq<char>| strip_cr(l)));
        }
    }
    proof {
        assert(keptseq.take(n as int) =~= keptseq);
    }
    r
}

/// A relevant line: trimmed, non-empty, introducing a NAT server mapping.
pub open spec fn spec_is_relevant(t: Seq<char>) -> bool {
    t.len() > 0 && starts_with(t, "nat server"@)
}

/// The lines that parse and those that fail, in order, for the dialect.
pub open spec fn spec_config_split(lines: Seq<Seq<char>>, device: Seq<char>) -> (Seq<Seq<char>>, Seq<
    Seq<char>,
>)
    decreases lines.len(),
{
    if lines.len() == 0 {
        (Seq::<Seq<char>>::empty(), Seq::<Seq<char>>::empty())
    } else {
        let prev = spec_config_split(lines.drop_last(), device);
        let t = spec_trim(lines.last());
        if !spec_is_relevant(t) {
            prev
        } else if device == "huawei"@ {
            if spec_parse_huawei(t) is Some {
                (prev.0.push(t), prev.1)
            } else {
                (prev.0, prev.1.push(t))
            }
        } else if device == "h3c"@ {
            if spec_parse_h3c(t) is Some {
                (prev.0.push(t), prev.1)
            } else {
                (prev.0, prev.1.push(t))
            }
        } else {
            (prev.0, prev.1.push(t))
        }
    }
}

/// What a successful entry for a relevant line holds, per dialect.
pub open spec fn huawei_or_h3c_entry_matches(e: NatEntry, line: Seq<char>, device: Seq<char>) -> bool {
    if device == "huawei"@ {
        spec_parse_huawei(line) matches Some(f) && e.name@ == f.0 && e.protocol@ == f.1
            && e.global_ip@ == f.2 && e.global_port@ == f.3 && e.inside_ip@ == f.4
            && e.inside_port@ == f.5 && e.command@ == line
    } else if device == "h3c"@ {
        spec_parse_h3c(line) matches Some(f) && e.name@ == f.0 && e.protocol@ == f.1
            && e.global_ip@ == f.2 && e.global_port@ == f.3 && e.inside_ip@ == f.4
            && e.inside_port@ == f.5 && e.command@ == line
    } else {
        false
    }
}


/// Parses a configuration text with the named dialect.
pub fn parse_nat_config(text: String, device_type: String) -> (r: NatParseResult)
    ensures
        r.device_type@ == device_type@,
        ({
            let split = spec_config_split(spec_config_lines(text@), device_type@);
            &&& r.failed_entries.deep_view() == split.1
            &&& r.success_entries@.len() == split.0.len()
            &&& forall|i: int|
                0 <= i < split.0.len() ==> huawei_or_h3c_entry_matches(
                    #[trigger] r.success_entries@[i],
                    split.0[i],
                    device_type@,
                )
        }),
{
    NATParser::parse_config(text.as_str(), device_type.as_str())
}

} // verus!
