use netcalc::aggregate4::aggregate_ipv4;

#[test]
fn merges_adjacent_blocks_into_one_supernet() {
    let items = vec![String::from("10.0.0.0/24"), String::from("10.0.1.0/24")];
    let out = aggregate_ipv4(items).expect("should aggregate");
    assert_eq!(
        out.normalized_inputs,
        vec![String::from("10.0.0.0/24"), String::from("10.0.1.0/24")]
    );
    assert_eq!(out.precise_summary, vec![String::from("10.0.0.0/23")]);
    assert_eq!(out.approximate_summary, "10.0.0.0/23");
    assert_eq!(out.non_precise_summary.cidr, "10.0.0.0/23");
    assert_eq!(out.non_precise_summary.total_addresses, 512);
    assert_eq!(out.non_precise_summary.input_addresses, 512);
    assert_eq!(out.non_precise_summary.extra_addresses, 0);
    assert_eq!(out.errors.len(), 0);
}

#[test]
fn keeps_going_past_bad_entries() {
    let items = vec![String::from("300.1.1.1"), String::from("10.0.0.1")];
    let out = aggregate_ipv4(items).expect("one good entry suffices");
    assert_eq!(out.normalized_inputs, vec![String::from("10.0.0.1")]);
    assert_eq!(out.errors.len(), 1);
    assert!(out.errors[0].contains("300.1.1.1"));
}

#[test]
fn fails_only_when_nothing_parses() {
    let items = vec![String::from("not an address"), String::from("   ")];
    let err = aggregate_ipv4(items).unwrap_err();
    assert_eq!(err, "no aggregatable IPv4 entries");
}

#[test]
fn decomposes_unaligned_ranges_exactly() {
    let items = vec![String::from("10.0.0.0 - 10.0.0.5")];
    let out = aggregate_ipv4(items).expect("should aggregate");
    assert_eq!(
        out.precise_summary,
        vec![String::from("10.0.0.0/30"), String::from("10.0.0.4/31")]
    );
    assert_eq!(out.non_precise_summary.input_addresses, 6);
    assert_eq!(out.non_precise_summary.total_addresses, 8);
    assert_eq!(out.non_precise_summary.extra_addresses, 2);
}

#[test]
fn shorthand_range_replaces_the_final_octet() {
    let items = vec![String::from("192.168.5.10-20")];
    let out = aggregate_ipv4(items).expect("should aggregate");
    assert_eq!(out.normalized_inputs, vec![String::from("192.168.5.10 - 192.168.5.20")]);
}

#[test]
fn rejects_reversed_ranges_per_entry() {
    let items = vec![String::from("10.0.0.5-1"), String::from("10.0.0.9")];
    let out = aggregate_ipv4(items).expect("should aggregate");
    assert_eq!(out.errors.len(), 1);
    assert!(out.errors[0].contains("range end precedes range start"));
    assert_eq!(out.normalized_inputs, vec![String::from("10.0.0.9")]);
}

#[test]
fn overlapping_inputs_are_not_double_counted() {
    let items = vec![
        String::from("10.0.0.0/25"),
        String::from("10.0.0.64 - 10.0.0.200"),
        String::from("10.0.0.201"),
    ];
    let out = aggregate_ipv4(items).expect("should aggregate");
    assert_eq!(out.non_precise_summary.input_addresses, 202);
    assert_eq!(out.non_precise_summary.total_addresses, 256);
    assert_eq!(out.non_precise_summary.extra_addresses, 54);
}

#[test]
fn normalizes_cidr_entries_to_their_network() {
    let items = vec![String::from("192.168.0.77/24")];
    let out = aggregate_ipv4(items).expect("should aggregate");
    assert_eq!(out.normalized_inputs, vec![String::from("192.168.0.0/24")]);
    assert_eq!(out.precise_summary, vec![String::from("192.168.0.0/24")]);
}

#[test]
fn finds_carrier_for_contained_address() {
    let data = vec![
        (String::from("DX"), vec![String::from("1.0.0.0/8")]),
        (String::from("LT"), vec![String::from("2.2.0.0/16"), String::from("2.3.0.0/16")]),
    ];
    let hit = netcalc::isp::find_isp_for_ip(0x02030405, &data).expect("should match");
    assert_eq!(hit.0, "LT");
    assert_eq!(hit.1, "2.3.0.0/16");
    assert!(netcalc::isp::find_isp_for_ip(0x7f000001, &data).is_none());

    let detected = netcalc::isp::detect_isp_info("1.2.3.4", &data).expect("parses");
    assert_eq!(detected.isp.as_deref(), Some("DX"));
    assert_eq!(detected.matched_range.as_deref(), Some("1.0.0.0/8"));
}

#[test]
fn summarizes_carrier_counts() {
    let data = vec![
        (String::from("DX"), vec![String::from("1.0.0.0/8")]),
        (String::from("YD"), vec![String::from("3.0.0.0/8"), String::from("4.0.0.0/8")]),
        (String::from("X"), vec![String::from("9.0.0.0/8")]),
    ];
    let out = netcalc::isp::summarize_isp_data(&data, String::from("somewhere"));
    assert_eq!(out.dx_count, 1);
    assert_eq!(out.lt_count, 0);
    assert_eq!(out.yd_count, 2);
    assert_eq!(out.other_count, 1);
    assert_eq!(out.total, 4);
    assert_eq!(out.saved_path, "somewhere");
}

#[test]
fn scans_for_the_next_free_elastic_address() {
    let used = vec![String::from("10.0.0.1"), String::from("10.0.0.2")];
    let req = netcalc::isp::NextAvailableElasticIpRequest {
        start_ip: String::from("10.0.0.1"),
        scan_size: Some(16),
    };
    let out = netcalc::isp::get_next_available_elastic_ip(&req, &used).expect("parses");
    assert_eq!(out.next_ip.as_deref(), Some("10.0.0.3"));

    let req2 = netcalc::isp::NextAvailableElasticIpRequest {
        start_ip: String::from("10.0.0.1"),
        scan_size: Some(2),
    };
    let out2 = netcalc::isp::get_next_available_elastic_ip(&req2, &used).expect("parses");
    assert_eq!(out2.next_ip, None);
}

#[test]
fn diffs_two_texts_line_by_line() {
    let req = netcalc::textdiff::TextDiffRequest {
        left: String::from("a\nb\nc\n"),
        right: String::from("a\nx\nc\n"),
        left_name: Some(String::from("old")),
        right_name: Some(String::from("new")),
        context: None,
    };
    let out = netcalc::textdiff::generate_text_diff(&req).expect("should diff");
    assert_eq!(out.summary.left_lines, 3);
    assert_eq!(out.summary.right_lines, 3);
    assert_eq!(out.summary.insertions, 1);
    assert_eq!(out.summary.deletions, 1);
    assert_eq!(out.summary.equal, 2);
    assert!(out.patch.contains("-b"));
    assert!(out.patch.contains("+x"));
    assert!(out.patch.contains("old"));
}

#[test]
fn resolves_municipality_city_fallback() {
    assert_eq!(netcalc::iploc::resolve_city("北京市", "unknown"), "北京市");
    assert_eq!(netcalc::iploc::resolve_city("湖南", "长沙"), "长沙");
    assert!(netcalc::iploc::looks_like_ipv4("1.2.3.4"));
    assert!(!netcalc::iploc::looks_like_ipv4("2001:db8::1"));
    let info = netcalc::iploc::get_database_info().expect("static info");
    assert!(info.supports_ipv4 && info.supports_ipv6);
}

#[test]
fn uppercases_protocols_through_validation() {
    let rows = vec![netcalc::natgen::ManualEntry {
        protocol: String::from("udp"),
        internal_ip: String::from("192.168.1.101"),
        internal_port: Some(String::from("53")),
        public_ip: String::from("222.240.138.5"),
        public_port: Some(String::from("53")),
    }];
    let raw = netcalc::natgen::convert_manual_entries(rows);
    assert_eq!(raw.len(), 1);
    assert_eq!(raw[0].row_index, 1);
    let out = netcalc::natgen::convert_rows_to_entries(raw).expect("valid row");
    assert_eq!(out.entries[0].protocol, "UDP");
}

#[test]
fn picks_the_marked_sheet_by_preference() {
    let names = vec![
        String::from("data"),
        String::from("端口需求表"),
        String::from("地址映射表"),
    ];
    let chosen = netcalc::natgen::default_sheet_name(&names).expect("non-empty");
    assert_eq!(chosen, "地址映射表");
    let none: Vec<String> = Vec::new();
    assert!(netcalc::natgen::default_sheet_name(&none).is_none());
}

#[test]
fn generates_commands_with_carrier_prefix_and_elastic() {
    let entry = netcalc::natgen::NatEntry {
        row_index: 1,
        protocol: String::from("TCP"),
        internal_ip: String::from("192.168.1.100"),
        internal_port_start: Some(80),
        internal_port_end: Some(80),
        public_ips: vec![String::from("1.2.3.4")],
        public_port_start: Some(80),
        public_port_end: Some(80),
        is_port_range: false,
    };
    let other = netcalc::natgen::NatEntry {
        internal_ip: String::from("192.168.1.200"),
        public_ips: vec![String::from("9.9.9.9")],
        ..clone_entry(&entry)
    };
    let request = netcalc::natgen::GenerateNatCommandsRequest {
        entries: vec![entry, other],
        use_elastic_ip: true,
        device_type: netcalc::natgen::DeviceType::Huawei,
        vrrp_id: None,
    };
    let mapping = vec![(String::from("192.168.1.100"), String::from("10.9.9.9"))];
    let isp_data = vec![(String::from("DX"), vec![String::from("1.0.0.0/8")])];
    let out = netcalc::natgen::generate_nat_commands(&request, &mapping, &isp_data)
        .expect("huawei needs no vrrp");
    assert_eq!(out.commands.len(), 2);
    assert_eq!(
        out.commands[0],
        "nat server DX_TCP192.168.1.100:80 protocol tcp global 1.2.3.4 80 inside 10.9.9.9 80 no-reverse"
    );
    assert!(out.commands[1].contains("inside 192.168.1.200"));
    assert_eq!(out.missing_elastic_ips, vec![String::from("192.168.1.200")]);
}

fn clone_entry(e: &netcalc::natgen::NatEntry) -> netcalc::natgen::NatEntry {
    netcalc::natgen::NatEntry {
        row_index: e.row_index,
        protocol: e.protocol.clone(),
        internal_ip: e.internal_ip.clone(),
        internal_port_start: e.internal_port_start,
        internal_port_end: e.internal_port_end,
        public_ips: e.public_ips.clone(),
        public_port_start: e.public_port_start,
        public_port_end: e.public_port_end,
        is_port_range: e.is_port_range,
    }
}

#[test]
fn h3c_generation_requires_a_vrrp_id() {
    let request = netcalc::natgen::GenerateNatCommandsRequest {
        entries: Vec::new(),
        use_elastic_ip: false,
        device_type: netcalc::natgen::DeviceType::H3c,
        vrrp_id: None,
    };
    let out = netcalc::natgen::generate_nat_commands(&request, &Vec::new(), &Vec::new());
    assert!(out.is_err());
}

#[test]
fn bulk_mapping_counts_added_updated_skipped() {
    let mapping = vec![(String::from("10.0.0.1"), String::from("100.64.0.1"))];
    let request = netcalc::isp::BulkElasticIpRequest {
        entries: vec![
            netcalc::isp::ElasticIpMappingRequest {
                internal_ip: String::from("10.0.0.1"),
                elastic_ip: String::from("100.64.0.9"),
            },
            netcalc::isp::ElasticIpMappingRequest {
                internal_ip: String::from("10.0.0.2"),
                elastic_ip: String::from("100.64.0.2"),
            },
            netcalc::isp::ElasticIpMappingRequest {
                internal_ip: String::from("bad"),
                elastic_ip: String::from("100.64.0.3"),
            },
        ],
        overwrite_existing: true,
    };
    let (updated_map, result) = netcalc::isp::bulk_add_elastic_ip_mappings(&request, mapping);
    assert_eq!(result.added, 1);
    assert_eq!(result.updated, 1);
    assert_eq!(result.skipped, 1);
    assert_eq!(updated_map[0], (String::from("10.0.0.1"), String::from("100.64.0.9")));
    assert_eq!(updated_map[1], (String::from("10.0.0.2"), String::from("100.64.0.2")));

    let request2 = netcalc::isp::BulkElasticIpRequest {
        entries: vec![netcalc::isp::ElasticIpMappingRequest {
            internal_ip: String::from("10.0.0.1"),
            elastic_ip: String::from("100.64.0.7"),
        }],
        overwrite_existing: false,
    };
    let (same_map, result2) = netcalc::isp::bulk_add_elastic_ip_mappings(&request2, updated_map);
    assert_eq!(result2.skipped, 1);
    assert_eq!(same_map[0].1, "100.64.0.9");
}
