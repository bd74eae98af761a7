//! Network-address arithmetic: derivation of IPv4 and IPv6 subnets from
//! textual `address/prefix` expressions, aggregation of free-form address
//! lists into a canonical merged coverage with its exact CIDR decomposition
//! and minimal supernet, and the pure text handling around router NAT
//! configuration that rests on those addresses.

pub mod arith;
pub mod text;
pub mod error;
pub mod wrappers;
pub mod addr4;
pub mod subnet4;
pub mod ranges;
pub mod blocks4;
pub mod aggregate4;
pub mod addr6;
pub mod subnet6;
pub mod natcfg;
pub mod natgen;
pub mod isp;
pub mod textdiff;
pub mod iploc;
