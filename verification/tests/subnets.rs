use netcalc::error::AddrError;
use netcalc::subnet4::compute_subnet;
use netcalc::subnet6::compute_ipv6_subnet;

#[test]
fn derives_class_c_private_subnet() {
    let out = compute_subnet("192.168.0.1/24").expect("should derive");
    let r = &out.result;
    assert_eq!(r.ip_address, "192.168.0.1");
    assert_eq!(r.network_address, "192.168.0.0");
    assert_eq!(r.broadcast_address, "192.168.0.255");
    assert_eq!(r.subnet_mask, "255.255.255.0");
    assert_eq!(r.wildcard_mask, "0.0.0.255");
    assert_eq!(r.usable_range, "192.168.0.1 - 192.168.0.254");
    assert_eq!(r.usable_hosts, "254");
    assert_eq!(r.total_hosts, "256");
    assert_eq!(r.ip_class, "C");
    assert_eq!(r.ip_type, "Private");
    assert_eq!(r.cidr_notation, "/24");
    assert_eq!(r.short_notation, "192.168.0.1/24");
    assert_eq!(r.binary_subnet_mask, "11111111.11111111.11111111.00000000");
    assert_eq!(r.integer_id, "3232235521");
    assert_eq!(r.hex_id, "0xc0a80001");
    assert_eq!(r.in_addr_arpa, "1.0.168.192.in-addr.arpa");
    assert_eq!(r.ipv4_mapped_address, "::ffff:c0a8.0001");
    assert_eq!(r.six_to_four_prefix, "2002:c0a8:0001::/48");
}

#[test]
fn point_to_point_block_has_two_usable_hosts() {
    let out = compute_subnet("10.0.0.5/31").expect("should derive");
    let r = &out.result;
    assert_eq!(r.usable_hosts, "2");
    assert_eq!(r.usable_range, "10.0.0.4 - 10.0.0.5");
    assert_eq!(r.network_address, "10.0.0.4");
    assert_eq!(r.broadcast_address, "10.0.0.5");
}

#[test]
fn host_route_has_one_usable_host() {
    let out = compute_subnet("203.0.113.7/32").expect("should derive");
    let r = &out.result;
    assert_eq!(r.usable_hosts, "1");
    assert_eq!(r.usable_range, "203.0.113.7");
    assert_eq!(r.total_hosts, "1");
}

#[test]
fn wide_block_groups_thousands() {
    let out = compute_subnet("10.1.2.3/8").expect("should derive");
    let r = &out.result;
    assert_eq!(r.total_hosts, "16,777,216");
    assert_eq!(r.usable_hosts, "16,777,214");
    assert_eq!(r.network_address, "10.0.0.0");
    assert_eq!(r.broadcast_address, "10.255.255.255");
    assert_eq!(out.related_networks.len(), 1);
    assert_eq!(out.related_networks[0].network, "10.0.0.0");
    assert_eq!(out.related_networks[0].broadcast, "10.255.255.255");
}

#[test]
fn sibling_networks_partition_the_class_block() {
    let out = compute_subnet("192.168.1.0/26").expect("should derive");
    assert_eq!(out.related_networks.len(), 4);
    assert_eq!(out.related_networks[0].network, "192.168.1.0");
    assert_eq!(out.related_networks[1].network, "192.168.1.64");
    assert_eq!(out.related_networks[3].broadcast, "192.168.1.255");
    assert_eq!(
        out.related_networks[1].range,
        "192.168.1.65 - 192.168.1.126"
    );
}

#[test]
fn multicast_block_has_no_siblings() {
    let out = compute_subnet("224.0.0.1/24").expect("should derive");
    assert_eq!(out.related_networks.len(), 0);
    assert_eq!(out.result.ip_class, "D");
    assert_eq!(out.result.ip_type, "Multicast");
}

#[test]
fn rejects_malformed_subnet_requests() {
    assert_eq!(compute_subnet("192.168.0.1").unwrap_err(), AddrError::InvalidFormat);
    assert_eq!(compute_subnet("300.1.1.1/8").unwrap_err(), AddrError::InvalidAddress);
    assert_eq!(compute_subnet("10.0.0.1/33").unwrap_err(), AddrError::InvalidPrefix);
    assert_eq!(compute_subnet("10.0.0.1/abc").unwrap_err(), AddrError::InvalidPrefix);
    assert_eq!(compute_subnet("10.00.0.1/8").unwrap_err(), AddrError::InvalidAddress);
    assert!(compute_subnet("  172.16.5.5/12  ").is_ok());
}

#[test]
fn classifies_address_types_in_precedence_order() {
    assert_eq!(compute_subnet("127.0.0.1/8").unwrap().result.ip_type, "Loopback");
    assert_eq!(compute_subnet("169.254.10.1/16").unwrap().result.ip_type, "Link-local");
    assert_eq!(
        compute_subnet("100.64.0.1/10").unwrap().result.ip_type,
        "Carrier-grade NAT"
    );
    assert_eq!(compute_subnet("240.0.0.1/4").unwrap().result.ip_type, "Reserved");
    assert_eq!(compute_subnet("0.1.2.3/8").unwrap().result.ip_type, "Special");
    assert_eq!(compute_subnet("8.8.8.8/24").unwrap().result.ip_type, "Public");
    assert_eq!(compute_subnet("172.16.0.1/12").unwrap().result.ip_type, "Private");
}

#[test]
fn derives_point_to_point_ipv6_block() {
    let out = compute_ipv6_subnet("2001:db8::/127").expect("should derive");
    assert_eq!(out.total_ip_addresses, "2");
    assert_eq!(out.addresses.len(), 2);
    assert_eq!(
        out.ip_range,
        "2001:0db8:0000:0000:0000:0000:0000:0000 - 2001:0db8:0000:0000:0000:0000:0000:0001"
    );
    assert_eq!(out.addresses[0], "2001:0db8:0000:0000:0000:0000:0000:0000");
    assert_eq!(out.addresses[1], "2001:0db8:0000:0000:0000:0000:0000:0001");
}

#[test]
fn renders_compressed_and_full_ipv6_forms() {
    let out = compute_ipv6_subnet("2001:db8::1/64").expect("should derive");
    assert_eq!(out.ipv6_address, "2001:db8::1/64");
    assert_eq!(out.full_ipv6_address, "2001:0db8:0000:0000:0000:0000:0000:0001");
    assert_eq!(out.network_address, "2001:db8::");
    assert_eq!(
        out.network_address_full,
        "2001:0db8:0000:0000:0000:0000:0000:0000"
    );
    assert_eq!(out.total_ip_addresses, "18,446,744,073,709,551,616");
    assert_eq!(out.addresses.len(), 999);
}

#[test]
fn counts_the_whole_ipv6_space() {
    let out = compute_ipv6_subnet("::/0").expect("should derive");
    assert_eq!(
        out.total_ip_addresses,
        "340,282,366,920,938,463,463,374,607,431,768,211,456"
    );
}

#[test]
fn rejects_malformed_ipv6_requests() {
    assert_eq!(compute_ipv6_subnet("2001:db8::1").unwrap_err(), AddrError::InvalidFormat);
    assert_eq!(
        compute_ipv6_subnet("2001:db8::zz/64").unwrap_err(),
        AddrError::InvalidAddress
    );
    assert_eq!(
        compute_ipv6_subnet("2001:db8::1/129").unwrap_err(),
        AddrError::InvalidPrefix
    );
    assert_eq!(
        compute_ipv6_subnet("1:2:3:4:5:6:7/64").unwrap_err(),
        AddrError::InvalidAddress
    );
    assert_eq!(
        compute_ipv6_subnet("1::2::3/64").unwrap_err(),
        AddrError::InvalidAddress
    );
}
