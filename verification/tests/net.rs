use arpmac::ipv4::in_subnet;
use arpmac::net::{
    bridge_candidates, connected_on_bridge, detect_sharing, discover_clients, extract_client_ip,
    format_bytes, nettop_bandwidth, netmask_to_prefix, parse_ifconfig, parse_leases, parse_u64,
    vendor_reply, vendor_url, BridgeAction, BridgeSearch, Sharing,
};

fn chars(s: &str) -> Vec<char> {
    s.chars().collect()
}

fn text(v: &[char]) -> String {
    v.iter().collect()
}

#[test]
fn parse_lease_record() {
    let text = r#"{
name=raspberrypi
ip_address=192.168.2.8
hw_address=1,e4:5f:01:68:25:58
}"#;
    let records = parse_leases(text);
    assert_eq!(records.len(), 1);
    assert_eq!(records[0].ip, "192.168.2.8");
    assert_eq!(records[0].mac, "e4:5f:01:68:25:58");
    assert_eq!(records[0].name, "raspberrypi");
}

#[test]
fn in_subnet_check() {
    assert!(in_subnet("192.168.2.5", "192.168.2.1", 24));
    assert!(!in_subnet("192.168.3.5", "192.168.2.1", 24));
}

#[test]
fn extract_ip_from_nettop_conn() {
    let ip = extract_client_ip("tcp4 192.168.2.5:54321<->8.8.8.8:443", "192.168.2.1", 24);
    assert_eq!(ip.as_deref(), Some("192.168.2.5"));
}

#[test]
fn lease_file_with_several_records_and_indentation() {
    let text = "{\n\tip_address=192.168.64.2\n\thw_address=1,ee:df:e4:7b:50:4d\n\tidentifier=1,ee:df:e4:7b:50:4d\n\tlease=0x6a02282f\n\tname=minint-1llret8\n}\r\n{\n  name=phone\n  hw_address=aa:bb:cc:dd:ee:ff\n  ip_address=192.168.64.3\n}\n{\nname=noip\n}\n";
    let records = parse_leases(text);
    assert_eq!(records.len(), 2);
    assert_eq!(records[0].ip, "192.168.64.2");
    assert_eq!(records[0].mac, "ee:df:e4:7b:50:4d");
    assert_eq!(records[0].name, "minint-1llret8");
    assert_eq!(records[1].ip, "192.168.64.3");
    assert_eq!(records[1].mac, "aa:bb:cc:dd:ee:ff");
    assert_eq!(records[1].name, "phone");
}

#[test]
fn lease_fields_carry_over_until_next_open_brace() {
    // a second `}` without a new `{` repeats the record
    let records = parse_leases("{\nip_address=10.0.0.2\n}\n}\n");
    assert_eq!(records.len(), 2);
    assert_eq!(records[1].ip, "10.0.0.2");
    assert!(parse_leases("").is_empty());
}

#[test]
fn subnet_edges() {
    assert!(in_subnet("10.1.2.3", "192.168.2.1", 0));
    assert!(!in_subnet("10.1.2.3", "192.168.2.1", 1));
    assert!(in_subnet("192.168.2.1", "192.168.2.1", 32));
    assert!(!in_subnet("192.168.2.2", "192.168.2.1", 32));
    assert!(in_subnet("192.168.3.5", "192.168.2.1", 23));
    assert!(!in_subnet("192.168.2.05", "192.168.2.1", 24));
    assert!(!in_subnet("192.168.2.256", "192.168.2.1", 24));
    assert!(!in_subnet("192.168.2", "192.168.2.1", 24));
    assert!(!in_subnet("192.168.2.5", "gateway", 24));
    assert!(!in_subnet(" 192.168.2.5", "192.168.2.1", 24));
    assert_eq!(in_subnet("192.168.3.5", "192.168.2.1", 22), in_subnet("192.168.2.1", "192.168.3.5", 22));
    assert_eq!(in_subnet("192.168.3.5", "192.168.2.1", 24), in_subnet("192.168.2.1", "192.168.3.5", 24));
}

#[test]
fn nettop_field_picks_first_client_side() {
    assert_eq!(
        extract_client_ip("tcp4 8.8.8.8:443<->192.168.2.7:5000", "192.168.2.1", 24).as_deref(),
        Some("192.168.2.7")
    );
    assert_eq!(extract_client_ip("tcp4 192.168.2.1:53<->8.8.8.8:53", "192.168.2.1", 24), None);
    assert_eq!(extract_client_ip("tcp4", "192.168.2.1", 24), None);
    assert_eq!(extract_client_ip("udp4 10.0.0.1:1<->10.0.0.2:2", "192.168.2.1", 24), None);
}

#[test]
fn u64_parsing_as_std() {
    for s in ["0", "12", "+7", "", "+", "-1", "18446744073709551615", "18446744073709551616", "1a", "007"] {
        assert_eq!(parse_u64(&chars(s)), s.parse::<u64>().ok(), "{s}");
    }
}

#[test]
fn netmask_prefixes() {
    assert_eq!(netmask_to_prefix(&chars("0xffffff00")), Some(24));
    assert_eq!(netmask_to_prefix(&chars("0xffff0000")), Some(16));
    assert_eq!(netmask_to_prefix(&chars("0xffffffff")), Some(32));
    assert_eq!(netmask_to_prefix(&chars("0x0")), Some(0));
    assert_eq!(netmask_to_prefix(&chars("0xFFFFFF00")), Some(24));
    assert_eq!(netmask_to_prefix(&chars("ffffff00")), None);
    assert_eq!(netmask_to_prefix(&chars("0x")), None);
    assert_eq!(netmask_to_prefix(&chars("0x1ffffffff")), None);
    assert_eq!(netmask_to_prefix(&chars("0xfffffg00")), None);
}

#[test]
fn ifconfig_output() {
    let out = "bridge100: flags=8863<UP,BROADCAST,SMART,RUNNING,SIMPLEX,MULTICAST> mtu 1500\n\toptions=3<RXCSUM,TXCSUM>\n\tether 36:aa:bb:cc:dd:64\n\tinet 192.168.2.1 netmask 0xffffff00 broadcast 192.168.2.255\n\tinet6 fe80::1%bridge100 prefixlen 64 scopeid 0x15\n";
    let r = parse_ifconfig(out).unwrap();
    assert_eq!(r.0, "192.168.2.1");
    assert_eq!(r.1, 24);
    let out = "bridge100: flags=8863<UP> mtu 1500\n\tinet 10.0.0.1 netmask 0xffff0000 broadcast 10.0.255.255\n";
    assert_eq!(parse_ifconfig(out), Some(("10.0.0.1".to_string(), 16)));
    let r = parse_ifconfig("\tinet 10.0.0.1 netmask 0xfffffff0\n").unwrap();
    assert_eq!(r.1, 28);
    let r = parse_ifconfig("\tinet 10.0.0.1 broadcast 10.0.0.255\n").unwrap();
    assert_eq!(r.1, 24);
    let r = parse_ifconfig("\tinet 10.0.0.1 netmask\n").unwrap();
    assert_eq!(r.1, 24);
    let r = parse_ifconfig("\tinet 10.0.0.1\n\tnetmask 0xffff0000\n").unwrap();
    assert_eq!(r, ("10.0.0.1".to_string(), 16));
    assert_eq!(parse_ifconfig("ifconfig: interface bridge100 does not exist\n"), None);
    assert_eq!(parse_ifconfig("bridge0: flags=0\n"), None);
}

#[test]
fn bridge_search_steps() {
    let (s, a) = BridgeSearch::start();
    assert!(matches!(a, BridgeAction::Inspect(ref i) if i == "bridge100"));
    let (s, a) = s.step("ifconfig: interface bridge100 does not exist\n");
    assert!(matches!(a, BridgeAction::ListInterfaces));
    let (s, a) = s.unwrap().step("lo0 en0 bridge0 en1 bridge101\n");
    assert!(matches!(a, BridgeAction::Inspect(ref i) if i == "bridge0"));
    let (s, a) = s.unwrap().step("bridge0: flags=8822\n");
    assert!(matches!(a, BridgeAction::Inspect(ref i) if i == "bridge101"));
    let (s, a) = s.unwrap().step("\tinet 192.168.3.1 netmask 0xffffff00\n");
    assert!(s.is_none());
    match a {
        BridgeAction::Found(i, g, p) => {
            assert_eq!(i, "bridge101");
            assert_eq!(g, "192.168.3.1");
            assert_eq!(p, 24);
        }
        _ => panic!("not found"),
    }
    let (_, a) = BridgeSearch::Listing.step("lo0 en0\n");
    assert!(matches!(a, BridgeAction::NotFound));
    assert_eq!(bridge_candidates("lo0 bridge0 en0 bridge100"), vec!["bridge0", "bridge100"]);
}

#[test]
fn sharing_from_search_result() {
    let s = detect_sharing(Some(("bridge100".into(), "192.168.2.1".into(), 24)));
    assert!(s.active);
    assert_eq!(s.interface, "bridge100");
    assert_eq!(s.gateway, "192.168.2.1");
    assert_eq!(s.prefix, 24);
    let s = detect_sharing(None);
    assert!(!s.active);
    assert_eq!(s.gateway, "");
    assert_eq!(s.prefix, 0);
}

#[test]
fn arp_table_of_bridge() {
    let out = "? (192.168.2.1) at 36:aa:bb:cc:dd:64 on bridge100 permanent [bridge]\n? (192.168.2.5) at aa:bb:cc:dd:ee:1 on bridge100 ifscope [bridge]\n? (192.168.2.6) at (incomplete) on bridge100 ifscope [bridge]\n? (10.0.0.9) at aa:bb:cc:dd:ee:2 on en0 ifscope [ethernet]\nphone (192.168.2.7) at aa:bb:cc:dd:ee:3 on bridge100\n";
    let t = connected_on_bridge(&chars(out), &chars("192.168.2.1"), 24);
    let t: Vec<(String, String)> = t.iter().map(|(a, b)| (text(a), text(b))).collect();
    assert_eq!(
        t,
        vec![
            ("192.168.2.5".to_string(), "aa:bb:cc:dd:ee:1".to_string()),
            ("192.168.2.7".to_string(), "aa:bb:cc:dd:ee:3".to_string())
        ]
    );
}

#[test]
fn nettop_totals_per_client() {
    let out = "time,,interface,state,bytes_in,bytes_out\n,tcp4 192.168.2.5:50000<->1.1.1.1:443,en0,Established,100,20\n,udp4 192.168.2.5:5353<->8.8.8.8:53,en0,,5,x\n,tcp4 192.168.2.9:1<->1.1.1.1:80,en0,Established,7,9\n,icmp 192.168.2.9,en0,,1000,1000\n,tcp4 192.168.2.9:1<->1.1.1.1:80\n";
    let t = nettop_bandwidth(&chars(out), &chars("192.168.2.1"), 24).unwrap();
    let t: Vec<(String, u64, u64)> = t.iter().map(|(a, b, c)| (text(a), *b, *c)).collect();
    assert_eq!(t, vec![("192.168.2.5".to_string(), 105, 20), ("192.168.2.9".to_string(), 7, 9)]);
    let big = "h\n,tcp4 192.168.2.5:1<->1.1.1.1:2,a,b,18446744073709551615,0\n,tcp4 192.168.2.5:1<->1.1.1.1:2,a,b,1,0\n";
    assert!(nettop_bandwidth(&chars(big), &chars("192.168.2.1"), 24).is_none());
}

fn sharing() -> Sharing {
    detect_sharing(Some(("bridge100".into(), "192.168.2.1".into(), 24)))
}

#[test]
fn discovery_merges_and_orders() {
    let leases = "{\nip_address=192.168.2.9\nhw_address=1,\nname=laptop\n}\n{\nip_address=192.168.2.10\nhw_address=1,11:22:33:44:55:66\nname=old\n}\n{\nip_address=192.168.2.1\nname=self\n}\n{\nip_address=10.0.0.4\nname=elsewhere\n}\n";
    let arp = "? (192.168.2.9) at aa:aa:aa:aa:aa:aa on bridge100\n? (192.168.2.20) at bb:bb:bb:bb:bb:bb on bridge100\n";
    let nettop = "h\n,tcp4 192.168.2.10:1<->1.1.1.1:2,a,b,2048,512\n,tcp4 192.168.2.30:1<->1.1.1.1:2,a,b,1,1\n";
    let blocked = vec!["192.168.2.20".to_string()];
    let cs = discover_clients(&sharing(), &blocked, Some(leases), arp, nettop);
    let ips: Vec<&str> = cs.iter().map(|c| c.ip.as_str()).collect();
    assert_eq!(ips, vec!["192.168.2.9", "192.168.2.10", "192.168.2.20"]);
    assert!(cs.iter().all(|c| c.connected));
    assert_eq!(cs[0].mac, "aa:aa:aa:aa:aa:aa");
    assert_eq!(cs[0].name, "laptop");
    assert!(!cs[0].blocked);
    assert_eq!(cs[1].name, "old");
    assert_eq!(cs[1].bytes_in, 2048);
    assert_eq!(cs[1].bytes_out, 512);
    assert_eq!(cs[2].mac, "bb:bb:bb:bb:bb:bb");
    assert_eq!(cs[2].name, "");
    assert!(cs[2].blocked);
}

#[test]
fn discovery_past_guests_after_online() {
    let leases = "{\nip_address=192.168.2.3\nhw_address=1,cc:cc:cc:cc:cc:cc\n}\n{\nip_address=192.168.2.2\n}\n";
    let arp = "? (192.168.2.4) at dd:dd:dd:dd:dd:dd on bridge100\n";
    let cs = discover_clients(&sharing(), &vec![], Some(leases), arp, "");
    let ips: Vec<&str> = cs.iter().map(|c| c.ip.as_str()).collect();
    assert_eq!(ips, vec!["192.168.2.4", "192.168.2.2", "192.168.2.3"]);
    assert!(cs[0].connected && !cs[1].connected && !cs[2].connected);
    let none = discover_clients(&sharing(), &vec![], None, "", "");
    assert!(none.is_empty());
}

#[test]
fn discovery_when_sharing_is_off() {
    let off = detect_sharing(None);
    let cs = discover_clients(&off, &vec![], Some("{\nip_address=192.168.2.3\n}\n"), "? (192.168.2.4) at d:d on x\n", "");
    assert!(cs.is_empty());
}

#[test]
fn byte_counts_as_in_table() {
    assert_eq!(format_bytes(0), "—");
    assert_eq!(format_bytes(1), "1");
    assert_eq!(format_bytes(512), "512");
    assert_eq!(format_bytes(1023), "1023");
    assert_eq!(format_bytes(1024), "1.0K");
    assert_eq!(format_bytes(1229), "1.2K");
    assert_eq!(format_bytes(3 * 1024 * 1024 + 400 * 1024), "3.4M");
}

#[test]
fn byte_counts_match_float_formatting() {
    let k = 1024u64;
    let mut samples: Vec<u64> = vec![
        k, k + 51, k + 52, k + 256, k + 768, 2 * k + 256, 3 * k + 768, 1280, 2560, 1048575,
        k * k, k * k + 52428, k * k + 262144, 5 * k * k + 262144, 7 * k * k + 786432,
        (1u64 << 53) - 1, 1u64 << 53, (1u64 << 53) + 1, (1u64 << 53) + 3,
        (1u64 << 60) + 12345, u64::MAX, u64::MAX - 2048, u64::MAX / 3,
    ];
    for i in 0..2000u64 {
        samples.push(k + i * 523);
        samples.push(k * k + i * 104_729);
        samples.push(i.wrapping_mul(0x9E37_79B9_7F4A_7C15));
    }
    for n in samples {
        let expected = if n >= k * k {
            format!("{:.1}M", n as f64 / (k * k) as f64)
        } else if n >= k {
            format!("{:.1}K", n as f64 / k as f64)
        } else if n > 0 {
            format!("{n}")
        } else {
            "—".to_string()
        };
        assert_eq!(format_bytes(n), expected, "{n}");
    }
}

#[test]
fn vendor_lookup_url_and_reply() {
    assert_eq!(vendor_url("e4:5f:01:68:25:58"), Ok("https://api.macvendors.com/e4:5f:01".to_string()));
    assert_eq!(vendor_url("e4:5f"), Err("invalid MAC".to_string()));
    assert_eq!(vendor_url("e4:5f:1"), Err("invalid MAC".to_string()));
    assert_eq!(vendor_url("e4:5f:01"), Ok("https://api.macvendors.com/e4:5f:01".to_string()));
    assert_eq!(vendor_reply(true, "  Raspberry Pi Trading Ltd\n"), Ok("Raspberry Pi Trading Ltd".to_string()));
    assert_eq!(vendor_reply(false, "whatever"), Err("lookup failed".to_string()));
}
