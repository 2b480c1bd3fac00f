use quickshare_core::net::{
    get_broadcast_addrs, guess_broadcast, ips_from_ip_addr_output, ips_from_ipconfig_output,
    is_plausible_lan_ip, looks_like_ipv4, pick_lan_ip,
};

#[test]
fn plausible_lan_addresses() {
    assert!(is_plausible_lan_ip("192.168.1.2"));
    assert!(is_plausible_lan_ip("10.0.0.1"));
    for bad in ["127.0.0.1", "169.254.3.4", "198.18.0.1", "198.19.9.9", "255.255.255.0", "0.0.0.0"] {
        assert!(!is_plausible_lan_ip(bad), "{bad}");
    }
}

#[test]
fn ipv4_shape() {
    assert!(looks_like_ipv4("192.168.1.100"));
    assert!(looks_like_ipv4("+1.02.3.4"));
    assert!(!looks_like_ipv4("256.1.1.1"));
    assert!(!looks_like_ipv4("1.2.3"));
    assert!(!looks_like_ipv4("1.2.3.4.5"));
    assert!(!looks_like_ipv4("1.2..4"));
    assert!(!looks_like_ipv4("a.b.c.d"));
    assert!(!looks_like_ipv4("fe80::1"));
}

#[test]
fn pick_prefers_private_ranges() {
    let v = |xs: &[&str]| xs.iter().map(|s| s.to_string()).collect::<Vec<_>>();
    assert_eq!(pick_lan_ip(&v(&["10.1.1.1", "192.168.0.7"])), Some("192.168.0.7"));
    assert_eq!(pick_lan_ip(&v(&["172.20.0.1", "10.1.1.1"])), Some("10.1.1.1"));
    assert_eq!(pick_lan_ip(&v(&["8.8.8.8", "172.20.0.1"])), Some("172.20.0.1"));
    assert_eq!(pick_lan_ip(&v(&["172.40.0.1", "8.8.8.8"])), Some("172.40.0.1"));
    assert_eq!(pick_lan_ip(&[]), None);
}

#[test]
fn broadcast_guess() {
    assert_eq!(guess_broadcast("192.168.1.100").as_deref(), Some("192.168.1.255"));
    assert_eq!(guess_broadcast("10.2.3.4").as_deref(), Some("10.2.3.255"));
    assert_eq!(guess_broadcast("172.16.5.6").as_deref(), Some("172.16.5.255"));
    assert_eq!(guess_broadcast("172.32.5.6"), None);
    assert_eq!(guess_broadcast("8.8.8.8"), None);
    assert_eq!(guess_broadcast("192.168.1"), None);
}

const IP_ADDR: &str = "1: lo    inet 127.0.0.1/8 scope host lo\\       valid_lft forever preferred_lft forever\n\
2: eth0    inet 192.168.1.100/24 brd 192.168.1.255 scope global dynamic eth0\\       valid_lft 86000sec\n\
3: docker0    inet 172.17.0.1/16 brd 172.17.255.255 scope global docker0\n\
4: eth1    inet 192.168.1.100/24 brd 192.168.1.255 scope global eth1\n";

#[test]
fn ip_addr_output_parsing() {
    assert_eq!(ips_from_ip_addr_output(IP_ADDR), vec!["192.168.1.100", "172.17.0.1"]);
    assert!(ips_from_ip_addr_output("").is_empty());
    assert!(ips_from_ip_addr_output("short line\r\n").is_empty());
}

#[test]
fn ipconfig_output_parsing() {
    let out = "Windows IP Configuration\r\n\r\nEthernet adapter:\r\n   IPv4 Address. . . . . . . . . . . : 192.168.0.12\r\n   Subnet Mask . . . . . . . . . . . : 255.255.255.0\r\n   IPv4 地址 . . . . . . . . . . . . : 10.0.0.7 \r\n   IPv4 Address. . . : 127.0.0.1\r\n   IPv4 Address. . . : 192.168.0.12\r\n   IPv4 Address. . . : not-an-ip\r\n";
    assert_eq!(ips_from_ipconfig_output(out), vec!["192.168.0.12", "10.0.0.7"]);
}

#[test]
fn broadcast_targets() {
    let local = vec!["192.168.1.100".to_string(), "10.0.0.5".to_string(), "8.8.8.8".to_string()];
    assert_eq!(
        get_broadcast_addrs(Some(IP_ADDR), &local),
        vec![
            "255.255.255.255:8879",
            "192.168.1.255:8879",
            "172.17.255.255:8879",
            "10.0.0.255:8879",
        ]
    );
    assert_eq!(get_broadcast_addrs(None, &[]), vec!["255.255.255.255:8879"]);
}
