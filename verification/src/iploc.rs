//! Shaping of address-lookup responses: the pure decisions around data a
//! network collaborator fetched.

use vstd::prelude::*;
use vstd::string::StringExecFns;

use crate::text::{contains_char, has_char, str_to_chars};

verus! {

/// The location fields of one lookup.
#[derive(Debug)]
pub struct IpLocationResult {
    pub country: String,
    pub region: String,
    pub city: String,
    pub isp: String,
    pub raw_info: String,
}

/// A lookup outcome for one address.
#[derive(Debug)]
pub struct LocationInfo {
    pub ip: String,
    pub location: IpLocationResult,
    pub is_ipv4: bool,
}

/// What the lookup service offers.
#[derive(Debug)]
pub struct DatabaseInfo {
    pub api_endpoint: String,
    pub supports_ipv4: bool,
    pub supports_ipv6: bool,
}

/// The displayed city: when the city is unknown and the region names a
/// municipality-level area, the region stands in for it.
pub open spec fn spec_resolve_city(region: Seq<char>, city: Seq<char>) -> Seq<char> {
    if city == "unknown"@ && region.len() > 0 && (region.last() == '市' || region.last() == '县'
        || region.last() == '区') {
        region
    } else {
        city
    }
}

/// Resolves the displayed city from the fetched region and city fields.
pub fn resolve_city(region: &str, city: &str) -> (r: String)
    ensures
        r@ == spec_resolve_city(region@, city@),
{
    let cc = str_to_chars(city);
    let rc = str_to_chars(region);
    let unknown = str_to_chars("unknown");
    if crate::text::chars_eq(&cc, &unknown) && rc.len() > 0 && {
        let last = rc[rc.len() - 1];
        last == '市' || last == '县' || last == '区'
    } {
        String::from_str(region)
    } else {
        String::from_str(city)
    }
}

/// Whether a textual address looks like a dotted-quad rather than a
/// hex-group form: it holds a dot.
pub fn looks_like_ipv4(ip: &str) -> (r: bool)
    ensures
        r == contains_char(ip@, '.'),
{
    let c = str_to_chars(ip);
    has_char(&c, '.')
}

/// What the lookup collaborator offers: one fixed endpoint for both
/// address families.
pub fn get_database_info() -> (r: Result<DatabaseInfo, String>)
    ensures
        r matches Ok(info) && info.supports_ipv4 && info.supports_ipv6 && info.api_endpoint@
            == "https://api.mir6.com/api/ip"@,
{
    Ok(
        DatabaseInfo {
            api_endpoint: String::from_str("https://api.mir6.com/api/ip"),
            supports_ipv4: true,
            supports_ipv6: true,
        },
    )
}

} // verus!
