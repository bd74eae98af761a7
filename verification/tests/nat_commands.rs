use netcalc::natcfg::NATParser;

#[test]
fn parse_huawei_with_protocol_and_ports() {
    let command = r#"nat server "web service" policy1 protocol tcp global 202.100.10.1 80 inside 192.168.1.100 8080"#;
    let entry = NATParser::parse_huawei_command(command).expect("should parse");

    assert_eq!(entry.name, "web service");
    assert_eq!(entry.protocol, "tcp");
    assert_eq!(entry.global_ip, "202.100.10.1");
    assert_eq!(entry.global_port, "80");
    assert_eq!(entry.inside_ip, "192.168.1.100");
    assert_eq!(entry.inside_port, "8080");
}

#[test]
fn parse_huawei_simple_command() {
    let command = "nat server web global 10.0.0.1 inside 192.168.1.2";
    let entry = NATParser::parse_huawei_command(command).expect("should parse");

    assert_eq!(entry.name, "web");
    assert_eq!(entry.protocol, "any");
    assert_eq!(entry.global_port, "any");
    assert_eq!(entry.inside_port, "any");
}

#[test]
fn parse_huawei_without_name() {
    let command =
        "nat server protocol tcp global 202.100.10.1 80 inside 192.168.1.100 8080 no-reverse";
    let entry = NATParser::parse_huawei_command(command).expect("should parse");

    assert_eq!(entry.protocol, "tcp");
    assert_eq!(entry.global_ip, "202.100.10.1");
    assert_eq!(entry.global_port, "80");
    assert_eq!(entry.inside_ip, "192.168.1.100");
    assert_eq!(entry.inside_port, "8080");
}

#[test]
fn parse_huawei_udp_range() {
    let command = "nat server YD_UDP10.157.50.178:13102-13109 protocol udp global 183.215.36.4 13102 13109 inside 172.30.208.198 13102 13109 no-reverse";
    let entry = NATParser::parse_huawei_command(command).expect("should parse");

    assert_eq!(entry.protocol, "udp");
    assert_eq!(entry.global_port, "13102-13109");
    assert_eq!(entry.inside_port, "13102-13109");
}

#[test]
fn parse_h3c_with_ports_and_description() {
    let command = "nat server protocol tcp global 203.0.113.1 80 inside 10.0.0.5 8080 rule 100 vrrp 1 description Web Service counting";
    let entry = NATParser::parse_h3c_command(command).expect("should parse");

    assert_eq!(entry.protocol, "tcp");
    assert_eq!(entry.global_ip, "203.0.113.1");
    assert_eq!(entry.global_port, "80");
    assert_eq!(entry.inside_ip, "10.0.0.5");
    assert_eq!(entry.inside_port, "8080");
    assert_eq!(entry.rule.as_deref(), Some("100"));
    assert_eq!(entry.vrrp.as_deref(), Some("1"));
    assert_eq!(entry.description.as_deref(), Some("Web Service"));
}

#[test]
fn parse_config_collects_successes_and_failures() {
    let text = "nat server a global 10.0.0.1 inside 192.168.0.1\nother line\nnat server broken global only\n";
    let result = NATParser::parse_config(text, "huawei");
    assert_eq!(result.device_type, "huawei");
    assert_eq!(result.success_entries.len(), 1);
    assert_eq!(result.success_entries[0].name, "a");
    assert_eq!(result.failed_entries.len(), 1);
    assert_eq!(result.failed_entries[0], "nat server broken global only");
}

#[test]
fn parse_config_unknown_device_fails_lines() {
    let result =
        netcalc::natcfg::parse_nat_config(String::from("nat server x"), String::from("cisco"));
    assert_eq!(result.success_entries.len(), 0);
    assert_eq!(result.failed_entries.len(), 1);
}

#[test]
fn build_huawei_command_single_port() {
    let entry = netcalc::natgen::NatEntry {
        row_index: 1,
        protocol: String::from("TCP"),
        internal_ip: String::from("192.168.1.100"),
        internal_port_start: Some(80),
        internal_port_end: Some(80),
        public_ips: vec![String::from("202.100.10.1")],
        public_port_start: Some(80),
        public_port_end: Some(80),
        is_port_range: false,
    };
    let cmd = netcalc::natgen::build_huawei_command(&entry, "202.100.10.1", "DX_", &None)
        .expect("should build");
    assert_eq!(
        cmd,
        "nat server DX_TCP192.168.1.100:80 protocol tcp global 202.100.10.1 80 inside 192.168.1.100 80 no-reverse"
    );
}

#[test]
fn build_h3c_command_any_protocol() {
    let entry = netcalc::natgen::NatEntry {
        row_index: 1,
        protocol: String::from("ANY"),
        internal_ip: String::from("10.0.0.9"),
        internal_port_start: None,
        internal_port_end: None,
        public_ips: vec![String::from("203.0.113.9")],
        public_port_start: None,
        public_port_end: None,
        is_port_range: false,
    };
    let cmd = netcalc::natgen::build_h3c_command(&entry, "203.0.113.9", "", &None, 7)
        .expect("should build");
    assert_eq!(
        cmd,
        "nat server global 203.0.113.9 inside 10.0.0.9 vrrp 7 description ANY10.0.0.9"
    );
}

#[test]
fn validate_rows_gathers_entries_and_errors() {
    let rows = vec![
        netcalc::natgen::RawNatRow {
            protocol: String::from("tcp"),
            internal_ip: String::from("192.168.1.100"),
            internal_port: Some(String::from("80")),
            public_ip: String::from("222.240.138.4"),
            public_port: Some(String::from("80")),
            row_index: 1,
        },
        netcalc::natgen::RawNatRow {
            protocol: String::from("tcp"),
            internal_ip: String::from("not an address"),
            internal_port: Some(String::from("80")),
            public_ip: String::from("222.240.138.5"),
            public_port: Some(String::from("80")),
            row_index: 2,
        },
    ];
    let out = netcalc::natgen::validate_rows(rows);
    assert_eq!(out.entries.len(), 1);
    assert_eq!(out.entries[0].protocol, "TCP");
    assert_eq!(out.entries[0].internal_ip, "192.168.1.100");
    assert_eq!(out.entries[0].public_ips, vec![String::from("222.240.138.4")]);
    assert_eq!(out.entries[0].internal_port_start, Some(80));
    assert!(!out.entries[0].is_port_range);
    assert_eq!(out.errors.len(), 1);
    assert!(out.errors[0].starts_with("row 2: "));
}

#[test]
fn port_range_parse_and_split() {
    let chars: Vec<char> = "13102-13109".chars().collect();
    let range = netcalc::natgen::parse_port_range(&chars).expect("should parse");
    assert_eq!(range.start, 13102);
    assert_eq!(range.end, 13109);
    assert_eq!(range.len(), 8);
    assert!(range.is_range());

    let req = netcalc::natgen::SplitPortRangesRequest {
        start_port: 1,
        end_port: 2500,
        max_span: Some(1000),
    };
    let out = netcalc::natgen::split_port_ranges(req).expect("should split");
    assert_eq!(out.ranges.len(), 3);
    assert_eq!(out.ranges[0].start, 1);
    assert_eq!(out.ranges[0].end, 1000);
    assert_eq!(out.ranges[2].start, 2001);
    assert_eq!(out.ranges[2].end, 2500);
}

#[test]
fn port_range_rejects_bad_shapes() {
    let empty: Vec<char> = "  ".chars().collect();
    assert!(netcalc::natgen::parse_port_range(&empty).is_err());
    let zero: Vec<char> = "0".chars().collect();
    assert!(netcalc::natgen::parse_port_range(&zero).is_err());
    let order: Vec<char> = "9000-80".chars().collect();
    assert_eq!(
        netcalc::natgen::parse_port_range(&order),
        Err(netcalc::natgen::PortError::Order)
    );
    let colon: Vec<char> = "80:90".chars().collect();
    let r = netcalc::natgen::parse_port_range(&colon).expect("colon form parses");
    assert_eq!((r.start, r.end), (80, 90));
}

#[test]
fn public_ip_extraction_finds_dotted_quads() {
    let value: Vec<char> = "addresses 222.240.138.4 and\n222.240.138.5 here"
        .chars()
        .collect();
    let found = netcalc::natgen::process_public_ips(&value);
    assert_eq!(
        found,
        vec![String::from("222.240.138.4"), String::from("222.240.138.5")]
    );
}

#[test]
fn extracts_rows_below_the_header() {
    let rows: Vec<Vec<String>> = vec![
        vec![String::from("title")],
        vec![
            String::from("协议"),
            String::from("主机IP"),
            String::from("内网端口"),
            String::from("外网IP"),
            String::from("外网端口"),
        ],
        vec![
            String::from("TCP"),
            String::from("192.168.1.100"),
            String::from("80"),
            String::from("222.240.138.4"),
            String::from("80"),
        ],
        vec![
            String::from(""),
            String::from(""),
            String::from(""),
            String::from(""),
            String::from(""),
        ],
        vec![
            String::from("ANY"),
            String::from("192.168.1.102"),
            String::from(""),
            String::from("222.240.138.6"),
            String::from(""),
        ],
    ];
    let mapping = vec![
        (String::from("协议"), String::from("协议")),
        (String::from("主机IP"), String::from("主机IP")),
        (String::from("内网端口"), String::from("内网端口")),
        (String::from("外网IP"), String::from("外网IP")),
        (String::from("外网端口"), String::from("外网端口")),
    ];
    let out = netcalc::natgen::extract_rows_from_excel(&rows, 1, &mapping).expect("should extract");
    assert_eq!(out.len(), 2);
    assert_eq!(out[0].protocol, "TCP");
    assert_eq!(out[0].row_index, 3);
    assert_eq!(out[0].internal_port.as_deref(), Some("80"));
    assert_eq!(out[1].protocol, "ANY");
    assert_eq!(out[1].internal_port, None);
    assert_eq!(out[1].row_index, 5);

    let missing = netcalc::natgen::extract_rows_from_excel(&rows, 0, &mapping);
    assert!(missing.is_err());
}
