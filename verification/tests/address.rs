use homepage::egress::{
    egress_allowed, host_is_lan_literal, host_may_be_fetched, is_lan_literal_target,
    parts_may_be_fetched,
};
use homepage::ip::{
    any_contains, is_non_public_ip, net_contains, parse_cidr, parse_lan_cidrs, parse_literal_ip,
    parse_u32, split_list, IpAddress,
};

fn v4(host: &str) -> Option<[u8; 4]> {
    match parse_literal_ip(host) {
        Some(IpAddress::V4(o)) => Some(o),
        _ => None,
    }
}

fn v6(host: &str) -> Option<[u8; 16]> {
    match parse_literal_ip(host) {
        Some(IpAddress::V6(o)) => Some(o),
        _ => None,
    }
}

fn is_private(host: &str) -> bool {
    is_non_public_ip(&parse_literal_ip(host).unwrap())
}

#[test]
fn dotted_addresses() {
    assert_eq!(v4("192.168.1.20"), Some([192, 168, 1, 20]));
    assert_eq!(v4("0.0.0.0"), Some([0, 0, 0, 0]));
    assert_eq!(v4("255.255.255.255"), Some([255, 255, 255, 255]));
    assert!(parse_literal_ip("256.0.0.1").is_none());
    assert!(parse_literal_ip("01.2.3.4").is_none());
    assert!(parse_literal_ip("1.2.3").is_none());
    assert!(parse_literal_ip("1.2.3.4.5").is_none());
    assert!(parse_literal_ip("1.2.3.").is_none());
    assert!(parse_literal_ip("1.2.3.4 ").is_none());
    assert!(parse_literal_ip("0x7f.0.0.1").is_none());
}

#[test]
fn one_number_is_a_dotted_address() {
    assert_eq!(v4("2130706433"), Some([127, 0, 0, 1]));
    assert_eq!(v4("0"), Some([0, 0, 0, 0]));
    assert_eq!(v4("4294967295"), Some([255, 255, 255, 255]));
    assert_eq!(v4("+16909060"), Some([1, 2, 3, 4]));
    assert!(parse_literal_ip("4294967296").is_none());
    assert!(parse_literal_ip("+").is_none());
    assert!(parse_literal_ip("-1").is_none());
}

#[test]
fn colon_addresses() {
    let mut one = [0u8; 16];
    one[15] = 1;
    assert_eq!(v6("::1"), Some(one));
    assert_eq!(v6("::"), Some([0u8; 16]));
    assert_eq!(
        v6("2001:db8::8:800:200c:417a"),
        Some([0x20, 0x01, 0x0d, 0xb8, 0, 0, 0, 0, 0, 8, 8, 0, 0x20, 0x0c, 0x41, 0x7a])
    );
    assert_eq!(
        v6("1:2:3:4:5:6:7:8"),
        Some([0, 1, 0, 2, 0, 3, 0, 4, 0, 5, 0, 6, 0, 7, 0, 8])
    );
    assert_eq!(
        v6("::ffff:10.0.0.1"),
        Some([0, 0, 0, 0, 0, 0, 0, 0, 0, 0, 0xff, 0xff, 10, 0, 0, 1])
    );
    assert_eq!(v6("FE80::"), Some([0xfe, 0x80, 0, 0, 0, 0, 0, 0, 0, 0, 0, 0, 0, 0, 0, 0]));
    assert!(parse_literal_ip("1::2::3").is_none());
    assert!(parse_literal_ip(":::").is_none());
    assert!(parse_literal_ip("1:2:3:4:5:6:7").is_none());
    assert!(parse_literal_ip("1:2:3:4:5:6:7:8:9").is_none());
    assert!(parse_literal_ip("1:2:3:4:5:6:7:8::").is_none());
    assert!(parse_literal_ip("12345::").is_none());
    assert!(parse_literal_ip("1.2.3.4::").is_none());
    assert!(parse_literal_ip("g::").is_none());
}

#[test]
fn colon_address_fills_what_is_left_out() {
    assert_eq!(
        v6("1:2:3:4:5:6:7::"),
        Some([0, 1, 0, 2, 0, 3, 0, 4, 0, 5, 0, 6, 0, 7, 0, 0])
    );
    assert_eq!(
        v6("::2:3:4:5:6:7:8"),
        Some([0, 0, 0, 2, 0, 3, 0, 4, 0, 5, 0, 6, 0, 7, 0, 8])
    );
    assert_eq!(
        v6("1:2:3:4:5:6:1.2.3.4"),
        Some([0, 1, 0, 2, 0, 3, 0, 4, 0, 5, 0, 6, 1, 2, 3, 4])
    );
}

#[test]
fn brackets_make_no_difference() {
    assert_eq!(v6("[::1]"), v6("::1"));
    assert_eq!(v6("[fd00::12]"), v6("fd00::12"));
    assert!(parse_literal_ip("[1.2.3.4]").is_none());
    assert!(parse_literal_ip("[]").is_none());
    assert!(parse_literal_ip("[").is_none());
}

#[test]
fn names_are_no_addresses() {
    assert!(parse_literal_ip("example.com").is_none());
    assert!(parse_literal_ip("nas").is_none());
    assert!(parse_literal_ip("").is_none());
}

#[test]
fn numbers_in_text() {
    let text: Vec<char> = "180".chars().collect();
    assert_eq!(parse_u32(&text), Some(180));
    let text: Vec<char> = "+7".chars().collect();
    assert_eq!(parse_u32(&text), Some(7));
    let text: Vec<char> = "4294967296".chars().collect();
    assert_eq!(parse_u32(&text), None);
    assert_eq!(parse_u32(&[]), None);
}

#[test]
fn addresses_that_are_not_public() {
    for host in [
        "10.0.0.1",
        "172.16.0.1",
        "172.31.255.255",
        "192.168.0.1",
        "127.0.0.1",
        "169.254.169.254",
        "0.0.0.0",
        "255.255.255.255",
        "192.0.2.1",
        "198.51.100.7",
        "203.0.113.9",
        "100.64.0.1",
        "100.127.255.255",
        "240.0.0.1",
        "224.0.0.1",
        "239.255.255.250",
        "::1",
        "::",
        "fe80::1",
        "febf::1",
        "fc00::1",
        "fd12:3456::1",
        "ff02::1",
    ] {
        assert!(is_private(host), "{}", host);
    }
}

#[test]
fn addresses_that_are_public() {
    for host in [
        "8.8.8.8",
        "172.15.0.1",
        "172.32.0.1",
        "192.167.0.1",
        "192.0.3.1",
        "100.63.0.1",
        "100.128.0.1",
        "223.255.255.255",
        "0.0.0.1",
        "2606:4700::1111",
        "fec0::1",
        "::2",
    ] {
        assert!(!is_private(host), "{}", host);
    }
}

#[test]
fn networks_in_text() {
    let net = parse_cidr("192.168.4.0/22").unwrap();
    assert!(matches!(net.addr, IpAddress::V4([192, 168, 4, 0])));
    assert_eq!(net.prefix, 22);
    let net = parse_cidr("fd00::/8").unwrap();
    assert!(matches!(net.addr, IpAddress::V6(o) if o[0] == 0xfd && o[1] == 0));
    assert_eq!(net.prefix, 8);
    assert!(parse_cidr("192.168.0.0/33").is_none());
    assert!(parse_cidr("192.168.0.0").is_none());
    assert!(parse_cidr("nas/8").is_none());
}

#[test]
fn network_holds_what_shares_its_prefix() {
    let net = parse_cidr("192.168.4.0/22").unwrap();
    assert!(net_contains(&net, &parse_literal_ip("192.168.4.0").unwrap()));
    assert!(net_contains(&net, &parse_literal_ip("192.168.7.255").unwrap()));
    assert!(!net_contains(&net, &parse_literal_ip("192.168.8.0").unwrap()));
    assert!(!net_contains(&net, &parse_literal_ip("192.168.3.255").unwrap()));
    assert!(!net_contains(&net, &parse_literal_ip("::1").unwrap()));
    let all = parse_cidr("10.0.0.0/0").unwrap();
    assert!(net_contains(&all, &parse_literal_ip("8.8.8.8").unwrap()));
    let one = parse_cidr("10.0.0.1/32").unwrap();
    assert!(net_contains(&one, &parse_literal_ip("10.0.0.1").unwrap()));
    assert!(!net_contains(&one, &parse_literal_ip("10.0.0.2").unwrap()));
}

#[test]
fn colon_network_holds_what_shares_its_prefix() {
    let net = parse_cidr("fd00:1200::/23").unwrap();
    assert!(net_contains(&net, &parse_literal_ip("fd00:13ff::1").unwrap()));
    assert!(!net_contains(&net, &parse_literal_ip("fd00:1400::1").unwrap()));
    assert!(!net_contains(&net, &parse_literal_ip("10.0.0.1").unwrap()));
    let all = parse_cidr("::/0").unwrap();
    assert!(net_contains(&all, &parse_literal_ip("ffff::ffff").unwrap()));
    let one = parse_cidr("fd00::1/128").unwrap();
    assert!(net_contains(&one, &parse_literal_ip("fd00::1").unwrap()));
    assert!(!net_contains(&one, &parse_literal_ip("fd00::2").unwrap()));
}

#[test]
fn every_network_holds_its_own_address() {
    for prefix in 0..33 {
        let net = parse_cidr(&format!("10.20.30.40/{}", prefix)).unwrap();
        assert!(net_contains(&net, &parse_literal_ip("10.20.30.40").unwrap()));
    }
}

#[test]
fn list_of_networks() {
    let nets = parse_lan_cidrs(" 192.168.0.0/16, ,nonsense,fd00::/8 ");
    assert_eq!(nets.len(), 2);
    assert_eq!(nets[0].prefix, 16);
    assert_eq!(nets[1].prefix, 8);
    assert!(any_contains(&nets, &parse_literal_ip("192.168.9.9").unwrap()));
    assert!(any_contains(&nets, &parse_literal_ip("fd01::1").unwrap()));
    assert!(!any_contains(&nets, &parse_literal_ip("10.0.0.1").unwrap()));
}

#[test]
fn blank_list_is_empty() {
    assert_eq!(parse_lan_cidrs("").len(), 0);
    assert_eq!(parse_lan_cidrs(" , ,, ").len(), 0);
}

#[test]
fn items_of_a_list() {
    assert_eq!(split_list(" a ,,b c, "), vec!["a".to_string(), "b c".to_string()]);
    assert!(split_list("").is_empty());
}

#[test]
fn public_targets_are_allowed() {
    let none = parse_lan_cidrs("");
    assert_eq!(egress_allowed("https://example.com/icon.png", &none), Some(()));
    assert_eq!(egress_allowed("http://8.8.8.8", &none), Some(()));
    assert_eq!(egress_allowed("http://[2606:4700::1111]/", &none), Some(()));
}

#[test]
fn private_targets_need_a_network() {
    let none = parse_lan_cidrs("");
    let lan = parse_lan_cidrs("192.168.0.0/16,fd00::/8");
    for url in ["http://192.168.1.2:5000/", "http://[fd00::5]/"] {
        assert_eq!(egress_allowed(url, &none), None);
        assert_eq!(egress_allowed(url, &lan), Some(()));
    }
    for url in ["http://10.0.0.1", "http://127.0.0.1/", "http://169.254.169.254/", "http://[::1]/"]
    {
        assert_eq!(egress_allowed(url, &none), None);
        assert_eq!(egress_allowed(url, &lan), None);
    }
}

#[test]
fn addresses_in_disguise_are_seen_through() {
    let none = parse_lan_cidrs("");
    assert_eq!(egress_allowed("http://2130706433/", &none), None);
    assert_eq!(egress_allowed("http://0x7f000001/", &none), None);
    assert_eq!(egress_allowed("http://0177.0.0.1/", &none), None);
}

#[test]
fn other_schemes_are_refused() {
    let none = parse_lan_cidrs("");
    assert_eq!(egress_allowed("ftp://example.com/", &none), None);
    assert_eq!(egress_allowed("file:///etc/passwd", &none), None);
    assert_eq!(egress_allowed("data:text/plain,x", &none), None);
    assert_eq!(egress_allowed("example.com", &none), None);
    assert_eq!(egress_allowed("", &none), None);
}

#[test]
fn names_of_the_inside_are_refused() {
    let all = parse_lan_cidrs("0.0.0.0/0,::/0");
    for host in [
        "host.docker.internal",
        "metadata.google.internal",
        "metadata",
        "authelia",
        "caddy",
        "homepage",
        "vaultwarden",
        "siyuan",
        "AUTHELIA",
    ] {
        assert_eq!(egress_allowed(&format!("http://{}:8080/", host), &all), None);
        assert!(!host_may_be_fetched(host, &all));
    }
    assert_eq!(egress_allowed("http://authelia.example.com/", &all), Some(()));
}

#[test]
fn more_networks_allow_more() {
    let few = parse_lan_cidrs("10.0.0.0/8");
    let more = parse_lan_cidrs("10.0.0.0/8,192.168.0.0/16");
    assert!(host_may_be_fetched("10.1.1.1", &few));
    assert!(host_may_be_fetched("10.1.1.1", &more));
    assert!(!host_may_be_fetched("192.168.1.1", &few));
    assert!(host_may_be_fetched("192.168.1.1", &more));
}

#[test]
fn parts_of_a_url_decide() {
    let none = parse_lan_cidrs("");
    let host = Some("example.com".to_string());
    assert!(parts_may_be_fetched("http", &host, &none));
    assert!(parts_may_be_fetched("https", &host, &none));
    assert!(!parts_may_be_fetched("ftp", &host, &none));
    assert!(!parts_may_be_fetched("http", &None, &none));
    assert!(!parts_may_be_fetched("http", &Some("10.0.0.1".to_string()), &none));
}

#[test]
fn only_addresses_of_the_networks_are_lan_targets() {
    let lan = parse_lan_cidrs("192.168.0.0/16,8.8.8.0/24");
    assert!(is_lan_literal_target("https://192.168.1.2:5001/", &lan));
    assert!(!is_lan_literal_target("https://10.0.0.1/", &lan));
    assert!(!is_lan_literal_target("https://nas.lan/", &lan));
    assert!(!is_lan_literal_target("https://8.8.8.8/", &lan));
    assert!(!is_lan_literal_target("not a url", &lan));
    assert!(!is_lan_literal_target("https://192.168.1.2/", &parse_lan_cidrs("")));
    assert!(host_is_lan_literal("192.168.1.2", &lan));
    assert!(!host_is_lan_literal("nas.lan", &lan));
}

#[test]
fn addresses_are_read_back_from_their_text() {
    for (text, octets) in [
        ("1.20.255.0", [1, 20, 255, 0]),
        ("100.10.9.99", [100, 10, 9, 99]),
    ] {
        assert_eq!(v4(text), Some(octets));
    }
    let mut o = [0u8; 16];
    o[10] = 0xff;
    o[11] = 0xff;
    o[12] = 192;
    o[15] = 7;
    assert_eq!(v6("::ffff:192.0.0.7"), Some(o));
    assert_eq!(
        v6("1:0:0:2::f0a0"),
        Some([0, 1, 0, 0, 0, 0, 0, 2, 0, 0, 0, 0, 0, 0, 0xf0, 0xa0])
    );
    assert_eq!(v6("a::"), Some([0, 0xa, 0, 0, 0, 0, 0, 0, 0, 0, 0, 0, 0, 0, 0, 0]));
    assert_eq!(
        v6("1:0:2:0:3:0:4:0"),
        Some([0, 1, 0, 0, 0, 2, 0, 0, 0, 3, 0, 0, 0, 4, 0, 0])
    );
}

#[test]
fn numbers_are_read_as_addresses() {
    for n in [0u32, 9, 10, 255, 256, 16_909_060, 2_130_706_433, u32::MAX] {
        assert_eq!(v4(&n.to_string()), Some(n.to_be_bytes()));
    }
    assert!(parse_literal_ip("4294967296").is_none());
    assert!(parse_literal_ip("nas.lan").is_none());
}

#[test]
fn long_hosts_are_read() {
    assert!(parse_literal_ip(&"1.".repeat(100_000)).is_none());
    assert!(parse_literal_ip(&"1:".repeat(100_000)).is_none());
}
