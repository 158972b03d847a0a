use subnet_calculator::csv_import::{find_single_separator, parse_import_lines, parse_number, trim, ImportError};
use subnet_calculator::ipv4::{ipv4_to_string, parse_ipv4};
use subnet_calculator::subnet::{markdown_report, Subnet, SubnetError};
use subnet_calculator::subnets_calculator::{sort_descending, SubnetCalculator};

fn ip(a: u32, b: u32, c: u32, d: u32) -> u32 {
    (a << 24) | (b << 16) | (c << 8) | d
}

fn calculated(network: &str, cidr: u32, hosts: u32) -> Subnet {
    let mut s = Subnet::new(network, cidr, hosts).unwrap();
    s.calculate().unwrap();
    s
}

#[test]
fn allocates_largest_first_and_contiguously() {
    let mut calc = SubnetCalculator::new(vec![10, 50, 2]);
    calc.calculate("192.168.1.0", 24).unwrap();
    assert_eq!(calc.subnets.len(), 3);
    let hosts: Vec<u32> = calc.subnets.iter().map(|s| s.hosts).collect();
    assert_eq!(hosts, vec![50, 10, 2]);
    let cidrs: Vec<u32> = calc.subnets.iter().map(|s| s.cidr).collect();
    assert_eq!(cidrs, vec![26, 28, 30]);
    let real: Vec<u32> = calc.subnets.iter().map(|s| s.real_hosts).collect();
    assert_eq!(real, vec![62, 14, 2]);
    assert_eq!(calc.subnets[0].network, ip(192, 168, 1, 0));
    assert_eq!(calc.subnets[1].network, calc.subnets[0].next_subnet);
    assert_eq!(calc.subnets[2].network, calc.subnets[1].next_subnet);
    assert_eq!(calc.subnets[1].network, ip(192, 168, 1, 64));
    assert_eq!(calc.subnets[2].network, ip(192, 168, 1, 80));
    assert_eq!(calc.subnets[0].broadcast, ip(192, 168, 1, 63));
    assert_eq!(calc.subnets[1].broadcast, ip(192, 168, 1, 79));
    assert_eq!(calc.subnets[2].broadcast, ip(192, 168, 1, 83));
    for pair in calc.subnets.windows(2) {
        assert!(pair[0].broadcast < pair[1].network);
    }
}

#[test]
fn first_block_fields() {
    let s = calculated("192.168.1.0", 24, 50);
    let expected = Subnet {
        network: ip(192, 168, 1, 0),
        mask: ip(255, 255, 255, 192),
        class: 'D',
        cidr: 26,
        first_host: ip(192, 168, 1, 1),
        last_host: ip(192, 168, 1, 61),
        broadcast: ip(192, 168, 1, 63),
        gateway: ip(192, 168, 1, 62),
        hosts: 50,
        real_hosts: 62,
        next_subnet: ip(192, 168, 1, 64),
        next_cidr: 26,
    };
    assert_eq!(s, expected);
}

#[test]
fn usable_hosts_is_smallest_fitting_block() {
    assert_eq!(calculated("10.0.0.0", 8, 5).real_hosts, 6);
    assert_eq!(calculated("10.0.0.0", 8, 6).real_hosts, 6);
    assert_eq!(calculated("10.0.0.0", 8, 7).real_hosts, 14);
    assert_eq!(calculated("10.0.0.0", 8, 1).real_hosts, 2);
    assert_eq!(calculated("10.0.0.0", 8, 62).real_hosts, 62);
    assert_eq!(calculated("10.0.0.0", 8, 63).real_hosts, 126);
    let big = calculated("0.0.0.0", 0, (1 << 30) - 2);
    assert_eq!(big.real_hosts, (1 << 30) - 2);
    assert_eq!(big.cidr, 2);
}

#[test]
fn address_identities() {
    for hosts in [1u32, 2, 3, 10, 100, 1000, 70000] {
        let s = calculated("172.16.0.0", 12, hosts);
        assert_eq!(s.first_host, s.network + 1);
        assert_eq!(s.broadcast, s.network | !s.mask);
        assert_eq!(s.next_subnet, s.broadcast + 1);
        assert!(s.real_hosts >= hosts);
    }
}

#[test]
fn degenerate_prefix_31() {
    let s = calculated("192.168.1.4", 24, 0);
    assert_eq!(s.cidr, 31);
    assert_eq!(s.real_hosts, 0);
    assert_eq!(s.broadcast, ip(192, 168, 1, 5));
    assert_eq!(s.first_host, ip(192, 168, 1, 5));
    assert_eq!(s.next_subnet, ip(192, 168, 1, 6));
}

#[test]
fn next_network_saturates_at_top() {
    let s = calculated("255.255.255.252", 30, 2);
    assert_eq!(s.broadcast, u32::MAX);
    assert_eq!(s.next_subnet, u32::MAX);
}

#[test]
fn gateway_and_last_host_of_a_large_block() {
    let s = calculated("10.0.0.0", 8, 60000);
    assert_eq!(s.cidr, 16);
    assert_eq!(s.broadcast, ip(10, 0, 255, 255));
    assert_eq!(s.gateway, ip(10, 0, 255, 254));
    assert_eq!(s.last_host, ip(10, 0, 255, 253));
}

#[test]
fn calculate_twice_changes_nothing() {
    let mut s = Subnet::new("192.168.7.32", 24, 13).unwrap();
    s.calculate().unwrap();
    let once = s;
    s.calculate().unwrap();
    assert_eq!(s, once);
}

#[test]
fn prefix_above_32_is_rejected() {
    assert!(matches!(Subnet::new("10.0.0.0", 33, 5), Err(SubnetError::InvalidCidr(33))));
    assert!(matches!(Subnet::cidr_to_mask(40), Err(SubnetError::InvalidCidr(40))));
    assert!(matches!(Subnet::cidr_to_mask(32), Ok(u32::MAX)));
    assert!(matches!(Subnet::cidr_to_mask(0), Ok(0)));
    assert!(matches!(Subnet::cidr_to_mask(24), Ok(0xffff_ff00)));
    let mut calc = SubnetCalculator::new(vec![4]);
    assert!(matches!(calc.calculate("10.0.0.0", 33), Err(SubnetError::InvalidCidr(33))));
    assert!(calc.subnets.is_empty());
}

#[test]
fn host_count_beyond_address_space_is_rejected() {
    let mut s = Subnet::new("0.0.0.0", 0, u32::MAX).unwrap();
    let before = s;
    assert!(matches!(s.calculate(), Err(SubnetError::InvalidCidr(u32::MAX))));
    assert_eq!(s, before);
    let largest = calculated("0.0.0.0", 0, u32::MAX - 1);
    assert_eq!(largest.cidr, 0);
    assert_eq!(largest.mask, 0);
    assert_eq!(largest.real_hosts, u32::MAX - 1);
    let mut calc = SubnetCalculator::new(vec![3, u32::MAX]);
    assert!(matches!(calc.calculate("10.0.0.0", 8), Err(SubnetError::InvalidCidr(u32::MAX))));
    assert!(calc.subnets.is_empty());
}

#[test]
fn invalid_network_text_is_rejected() {
    for text in ["192.168.1", "192.168.01.0", "256.0.0.0", " 1.2.3.4", "1.2.3.4.", "", "a.b.c.d", "1..2.3"] {
        match Subnet::new(text, 24, 5) {
            Err(SubnetError::InvalidIpAddress(t)) => assert_eq!(t, text),
            _ => panic!("accepted {:?}", text),
        }
    }
    let mut calc = SubnetCalculator::new(vec![5]);
    assert!(matches!(calc.calculate("300.1.1.1", 24), Err(SubnetError::InvalidIpAddress(_))));
}

#[test]
fn empty_host_list_allocates_nothing() {
    let mut calc = SubnetCalculator::new(vec![]);
    assert!(calc.calculate("not an address", 99).is_ok());
    assert!(calc.subnets.is_empty());
}

#[test]
fn second_run_appends() {
    let mut calc = SubnetCalculator::new(vec![2]);
    calc.calculate("10.0.0.0", 8).unwrap();
    calc.calculate("10.0.1.0", 8).unwrap();
    assert_eq!(calc.subnets.len(), 2);
    assert_eq!(calc.subnets[1].network, ip(10, 0, 1, 0));
}

#[test]
fn class_by_prefix() {
    assert_eq!(Subnet::determine_class(0), 'A');
    assert_eq!(Subnet::determine_class(8), 'A');
    assert_eq!(Subnet::determine_class(9), 'B');
    assert_eq!(Subnet::determine_class(16), 'B');
    assert_eq!(Subnet::determine_class(24), 'C');
    assert_eq!(Subnet::determine_class(25), 'D');
    assert_eq!(Subnet::determine_class(32), 'D');
    assert_eq!(Subnet::determine_class(33), 'E');
}

#[test]
fn sorts_largest_first() {
    let mut v = vec![10, 50, 2, 50, 0];
    sort_descending(&mut v);
    assert_eq!(v, vec![50, 50, 10, 2, 0]);
}

#[test]
fn dotted_quad_text() {
    assert_eq!(parse_ipv4("192.168.1.0"), Some(ip(192, 168, 1, 0)));
    assert_eq!(parse_ipv4("0.0.0.0"), Some(0));
    assert_eq!(parse_ipv4("255.255.255.255"), Some(u32::MAX));
    assert_eq!(parse_ipv4("1.2.3.04"), None);
    assert_eq!(parse_ipv4("1.2.3.1000"), None);
    assert_eq!(ipv4_to_string(ip(10, 20, 30, 40)), "10.20.30.40");
    assert_eq!(ipv4_to_string(0), "0.0.0.0");
    for v in [0u32, 1, 255, 256, 0x0a00_0001, 0xc0a8_0140, u32::MAX] {
        assert_eq!(parse_ipv4(&ipv4_to_string(v)), Some(v));
    }
}

#[test]
fn markdown_table_of_a_block() {
    let s = calculated("192.168.1.0", 24, 50);
    let expected = "| **Network** | **Mask** | **CIDR** | **Class** | **Broadcast** | **Gateway** | **First Host** | **Last Host** | **Hosts** | **Real Hosts** | **Wasted Hosts** |\n| --- | --- | --- | --- | --- | --- | --- | --- | --- | --- | --- |\n| 192.168.1.0 | 255.255.255.192 | 26 | D | 192.168.1.63 | 192.168.1.62 | 192.168.1.1 | 192.168.1.61 | 50 | 62 | 14 |";
    assert_eq!(s.to_markdown_table(), expected);
}

fn lines(text: &[&str]) -> Vec<String> {
    text.iter().map(|l| l.to_string()).collect()
}

#[test]
fn import_reads_network_prefix_and_hosts() {
    let r = parse_import_lines(&lines(&["192.168.1.0,24", "10", "50", " 2 "]));
    assert_eq!(r, Ok(("192.168.1.0".to_string(), 24, vec![10, 50, 2])));
    let r = parse_import_lines(&lines(&[" 10.0.0.0 / +8 ", "+7"]));
    assert_eq!(r, Ok(("10.0.0.0".to_string(), 8, vec![7])));
}

#[test]
fn import_errors() {
    assert_eq!(parse_import_lines(&lines(&[])), Err(ImportError::Empty));
    assert_eq!(
        parse_import_lines(&lines(&["192.168.1.0", "5"])),
        Err(ImportError::InvalidFirstLine("192.168.1.0".to_string()))
    );
    assert_eq!(
        parse_import_lines(&lines(&["192.168.1.0/24,1", "5"])),
        Err(ImportError::InvalidFirstLine("192.168.1.0/24,1".to_string()))
    );
    assert_eq!(
        parse_import_lines(&lines(&["192.168.1.0,x", "5"])),
        Err(ImportError::InvalidNumber("x".to_string()))
    );
    assert_eq!(
        parse_import_lines(&lines(&["192.168.1.0,24", "5", "-3", "y"])),
        Err(ImportError::InvalidNumber("-3".to_string()))
    );
    assert_eq!(
        parse_import_lines(&lines(&["192.168.1.0,24", "4294967296"])),
        Err(ImportError::InvalidNumber("4294967296".to_string()))
    );
    assert_eq!(parse_import_lines(&lines(&["192.168.1.0,24"])), Err(ImportError::NoHosts));
}

#[test]
fn trims_and_reads_numbers() {
    assert_eq!(trim("  a b\t\n"), "a b");
    assert_eq!(trim("\u{3000}x\u{a0}"), "x");
    assert_eq!(trim("   "), "");
    assert_eq!(parse_number("4294967295"), Some(u32::MAX));
    assert_eq!(parse_number("+0"), Some(0));
    assert_eq!(parse_number("+"), None);
    assert_eq!(parse_number(""), None);
    assert_eq!(parse_number("12a"), None);
    assert_eq!(find_single_separator("a,b"), Some(1));
    assert_eq!(find_single_separator("a/b/c"), None);
}

#[test]
fn markdown_report_numbers_sections() {
    let mut calc = SubnetCalculator::new(vec![2, 10]);
    calc.calculate("192.168.1.0", 24).unwrap();
    let report = markdown_report(&calc.subnets);
    let expected = format!(
        "## Subnet 0:\n\n{}\n---\n## Subnet 1:\n\n{}\n---\n",
        calc.subnets[0].to_markdown_table(),
        calc.subnets[1].to_markdown_table()
    );
    assert_eq!(report, expected);
    assert!(report.contains("| 192.168.1.16 | 255.255.255.252 | 30 | D | 192.168.1.19 | 192.168.1.18 | 192.168.1.17 | 192.168.1.17 | 2 | 2 | 2 |"));
    assert_eq!(markdown_report(&vec![]), "");
}
