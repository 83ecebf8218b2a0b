use olsr_hna::addr::{ipv4_to_string, parse_ipv4, CidrAddr};
use olsr_hna::hna::{build_hna_tree, join_hostnames, HnaAnnouncement, HnaError};
use olsr_hna::hosts::{parse_hosts, HostsError};
use olsr_hna::report::{hna_report, render_report, validity_seconds, ReportError};

const HEADER: &str = "Announced network      OLSR gateway      Validity Time      OLSR Hostname";
const RULE: &str = "=================      ============      =============      =============";

fn ann(gateway: &str, destination: &str, genmask: u8, validity_time: u32) -> HnaAnnouncement {
    HnaAnnouncement {
        gateway: gateway.to_string(),
        destination: destination.to_string(),
        genmask,
        validity_time,
    }
}

fn row(net: &str, gw: &str, secs: u32, host: &str) -> String {
    format!("{:<22} {:<20} {:<15} {:<25}", net, gw, secs, host)
}

#[test]
fn end_to_end_single_route() {
    let entries = vec![ann("10.0.0.1", "192.168.1.0", 24, 3000)];
    let lines = hna_report(&entries, "10.0.0.1 node-alpha\n").unwrap();
    assert_eq!(lines.len(), 3);
    assert_eq!(lines[0], HEADER);
    assert_eq!(lines[1], RULE);
    assert_eq!(lines[2], row("192.168.1.0/24", "10.0.0.1", 3, "node-alpha"));
}

#[test]
fn row_count_is_entries_plus_header() {
    let entries = vec![
        ann("10.0.0.1", "192.168.1.0", 24, 3000),
        ann("10.0.0.2", "192.168.2.0", 24, 4000),
        ann("10.0.0.3", "172.16.0.0", 12, 5000),
    ];
    let lines = hna_report(&entries, "").unwrap();
    assert_eq!(lines.len(), 5);
}

#[test]
fn empty_announcements_give_header_only() {
    let lines = hna_report(&Vec::new(), "10.0.0.1 a\n").unwrap();
    assert_eq!(lines, vec![HEADER.to_string(), RULE.to_string()]);
}

#[test]
fn rows_sorted_by_destination() {
    let entries = vec![
        ann("10.0.0.1", "192.168.1.0", 24, 1000),
        ann("10.0.0.2", "10.1.0.0", 16, 2000),
        ann("10.0.0.3", "172.16.0.0", 12, 3000),
        ann("10.0.0.4", "9.255.255.0", 24, 4000),
    ];
    let lines = hna_report(&entries, "").unwrap();
    assert_eq!(lines[2], row("9.255.255.0/24", "10.0.0.4", 4, ""));
    assert_eq!(lines[3], row("10.1.0.0/16", "10.0.0.2", 2, ""));
    assert_eq!(lines[4], row("172.16.0.0/12", "10.0.0.3", 3, ""));
    assert_eq!(lines[5], row("192.168.1.0/24", "10.0.0.1", 1, ""));
}

#[test]
fn order_of_input_does_not_matter() {
    let a = vec![
        ann("10.0.0.1", "192.168.1.0", 24, 1000),
        ann("10.0.0.2", "10.1.0.0", 16, 2000),
        ann("10.0.0.3", "172.16.0.0", 12, 3000),
    ];
    let b = vec![
        ann("10.0.0.3", "172.16.0.0", 12, 3000),
        ann("10.0.0.1", "192.168.1.0", 24, 1000),
        ann("10.0.0.2", "10.1.0.0", 16, 2000),
    ];
    let hosts = "10.0.0.2 beta\n10.0.0.3 gamma\n";
    assert_eq!(hna_report(&a, hosts).unwrap(), hna_report(&b, hosts).unwrap());
}

#[test]
fn hostname_joined_by_gateway() {
    let entries = vec![
        ann("10.0.0.1", "192.168.1.0", 24, 3000),
        ann("10.0.0.9", "192.168.2.0", 24, 3000),
    ];
    let lines = hna_report(&entries, "10.0.0.1 node-alpha extra tokens\n10.0.0.2 other\n").unwrap();
    assert_eq!(lines[2], row("192.168.1.0/24", "10.0.0.1", 3, "node-alpha"));
    assert_eq!(lines[3], row("192.168.2.0/24", "10.0.0.9", 3, ""));
}

#[test]
fn validity_is_floored_seconds() {
    assert_eq!(validity_seconds(1500), 1);
    assert_eq!(validity_seconds(999), 0);
    assert_eq!(validity_seconds(0), 0);
    assert_eq!(validity_seconds(u32::MAX), 4294967);
    let entries = vec![ann("10.0.0.1", "192.168.1.0", 24, 1500), ann("10.0.0.1", "192.168.2.0", 24, 999)];
    let lines = hna_report(&entries, "").unwrap();
    assert_eq!(lines[2], row("192.168.1.0/24", "10.0.0.1", 1, ""));
    assert_eq!(lines[3], row("192.168.2.0/24", "10.0.0.1", 0, ""));
}

#[test]
fn hosts_skip_blank_comment_and_short_lines() {
    let text = "\n   \n\t\n# 10.0.0.1 commented\n   #10.0.0.2 also-commented\n10.0.0.3\n10.0.0.4 four\n";
    let t = parse_hosts(text).unwrap();
    assert_eq!(t.len(), 1);
    assert_eq!(t.get(&0x0a000004).unwrap(), "four");
}

#[test]
fn hosts_later_line_overwrites() {
    let t = parse_hosts("10.0.0.1 first\r\n10.0.0.1 second\r\n10.0.0.2 two").unwrap();
    assert_eq!(t.len(), 2);
    assert_eq!(t.get(&0x0a000001).unwrap(), "second");
    assert_eq!(t.get(&0x0a000002).unwrap(), "two");
}

#[test]
fn hosts_bad_address_is_error_with_line() {
    let r = parse_hosts("10.0.0.1 a\n\nnot-an-ip b\n10.0.0.2 c\n");
    assert_eq!(r.unwrap_err(), HostsError::InvalidAddress { line: 3 });
}

#[test]
fn duplicate_destination_last_wins() {
    let entries = vec![
        ann("10.0.0.1", "192.168.1.0", 24, 1000),
        ann("10.0.0.2", "192.168.1.0", 25, 7000),
    ];
    let lines = hna_report(&entries, "10.0.0.2 later\n").unwrap();
    assert_eq!(lines.len(), 3);
    assert_eq!(lines[2], row("192.168.1.0/25", "10.0.0.2", 7, "later"));
}

#[test]
fn bad_gateway_is_error() {
    let entries = vec![ann("10.0.0.1", "192.168.1.0", 24, 1000), ann("10.0.0.x", "192.168.2.0", 24, 1000)];
    assert_eq!(build_hna_tree(&entries).unwrap_err(), HnaError::InvalidGateway { index: 1 });
    assert_eq!(
        hna_report(&entries, "").unwrap_err(),
        ReportError::Hna(HnaError::InvalidGateway { index: 1 })
    );
}

#[test]
fn bad_destination_is_error() {
    let entries = vec![ann("10.0.0.1", "::1", 128, 1000)];
    assert_eq!(build_hna_tree(&entries).unwrap_err(), HnaError::InvalidDestination { index: 0 });
}

#[test]
fn announcements_checked_before_hosts() {
    let entries = vec![ann("bad", "192.168.1.0", 24, 1000)];
    assert_eq!(
        hna_report(&entries, "bad x\n").unwrap_err(),
        ReportError::Hna(HnaError::InvalidGateway { index: 0 })
    );
    let good = vec![ann("10.0.0.1", "192.168.1.0", 24, 1000)];
    assert_eq!(
        hna_report(&good, "bad x\n").unwrap_err(),
        ReportError::Hosts(HostsError::InvalidAddress { line: 1 })
    );
}

#[test]
fn join_and_render_directly() {
    let entries = vec![ann("10.0.0.1", "192.168.1.0", 24, 61000)];
    let tree = build_hna_tree(&entries).unwrap();
    let names = parse_hosts("10.0.0.1 n\n").unwrap();
    let rows = join_hostnames(&tree, &names);
    assert_eq!(rows.len(), 1);
    assert_eq!(rows[0].host_name, "n");
    assert_eq!(rows[0].ttl, 61000);
    let lines = render_report(&rows);
    assert_eq!(lines[2], row("192.168.1.0/24", "10.0.0.1", 61, "n"));
}

#[test]
fn long_fields_are_not_truncated() {
    let host = "a-very-long-hostname-that-exceeds-the-column";
    let entries = vec![ann("255.255.255.255", "255.255.255.255", 32, 4294967295)];
    let lines = hna_report(&entries, &format!("255.255.255.255 {}\n", host)).unwrap();
    assert_eq!(lines[2], row("255.255.255.255/32", "255.255.255.255", 4294967, host));
}

#[test]
fn parse_ipv4_accepts_dotted_quads() {
    assert_eq!(parse_ipv4("0.0.0.0"), Some(0));
    assert_eq!(parse_ipv4("255.255.255.255"), Some(u32::MAX));
    assert_eq!(parse_ipv4("192.168.1.10"), Some(0xc0a8010a));
}

#[test]
fn parse_ipv4_rejects_others() {
    for s in ["", "1.2.3", "1.2.3.4.5", "256.0.0.1", "01.2.3.4", "1..2.3", "1.2.3.4 ", "a.b.c.d", "::1", "1.2.3.1000"] {
        assert_eq!(parse_ipv4(s), None, "{}", s);
    }
}

#[test]
fn addresses_render_as_text() {
    assert_eq!(ipv4_to_string(0xc0a8010a), "192.168.1.10");
    assert_eq!(ipv4_to_string(0), "0.0.0.0");
    assert_eq!(CidrAddr { netaddr: 0x0a000000, netmask: 8 }.to_string(), "10.0.0.0/8");
}

#[test]
fn address_text_reads_back() {
    for a in [0u32, 1, 9, 10, 99, 100, 255, 256, 0x0a000001, 0x7f000001, 0xc0a80164, u32::MAX] {
        assert_eq!(parse_ipv4(&ipv4_to_string(a)), Some(a));
    }
}
