use farmview::fetch::match_ip;
use farmview::ips::IpBlock;

#[test]
fn parse_reads_four_octets() {
    assert_eq!(IpBlock::parse("1.2.3.4"), 0x0102_0304);
    assert_eq!(IpBlock::parse("10.0.0.5"), 0x0a00_0005);
    assert_eq!(IpBlock::parse("0.0.0.0"), 0);
    assert_eq!(IpBlock::parse("255.255.255.255"), u32::MAX);
    assert_eq!(IpBlock::parse("192.168.1.128"), 3_232_235_904);
}

#[test]
fn parse_counts_missing_octets_as_zero() {
    assert_eq!(IpBlock::parse(""), 0);
    assert_eq!(IpBlock::parse("10"), 0x0a00_0000);
    assert_eq!(IpBlock::parse("10.1"), 0x0a01_0000);
    assert_eq!(IpBlock::parse("10.1.2"), 0x0a01_0200);
    assert_eq!(IpBlock::parse("1..3.4"), 0x0100_0304);
    assert_eq!(IpBlock::parse("...7"), 7);
    assert_eq!(IpBlock::parse("1.2.3."), 0x0102_0300);
}

#[test]
fn parse_reads_no_more_than_four_octets() {
    assert_eq!(IpBlock::parse("1.2.3.4.5"), 0x0102_0304);
    assert_eq!(IpBlock::parse("1.2.3.4.5.6.7"), 0x0102_0304);
}

#[test]
fn parse_counts_malformed_octets_as_zero() {
    assert_eq!(IpBlock::parse("256.1.1.1"), 0x0001_0101);
    assert_eq!(IpBlock::parse("1.999.1.1"), 0x0100_0101);
    assert_eq!(IpBlock::parse("a.b.c.d"), 0);
    assert_eq!(IpBlock::parse("1.2.3.x4"), 0x0102_0300);
    assert_eq!(IpBlock::parse("1.2.3.-4"), 0x0102_0300);
    assert_eq!(IpBlock::parse(" 1.2.3.4"), 0x0002_0304);
    assert_eq!(IpBlock::parse("1.2.3.4 "), 0x0102_0300);
    assert_eq!(IpBlock::parse("1.2.3.4/24"), 0x0102_0300);
    assert_eq!(IpBlock::parse("1.2.3.+"), 0x0102_0300);
    assert_eq!(IpBlock::parse("1.2.3.++4"), 0x0102_0300);
    assert_eq!(IpBlock::parse("1.2.3.٣"), 0x0102_0300);
    assert_eq!(IpBlock::parse("1.2.3.99999999999999999999999"), 0x0102_0300);
}

#[test]
fn parse_takes_a_plus_sign_and_leading_zeros() {
    assert_eq!(IpBlock::parse("1.2.3.+4"), 0x0102_0304);
    assert_eq!(IpBlock::parse("001.02.0003.4"), 0x0102_0304);
    assert_eq!(IpBlock::parse("1.2.3.0000000000000000000000255"), 0x0102_03ff);
    assert_eq!(IpBlock::parse("+10.+0.+0.+5"), 0x0a00_0005);
}

#[test]
fn block_of_24_bits_holds_its_addresses() {
    let block = IpBlock::new("10.0.0.0/24");
    assert!(block.matches("10.0.0.5"));
    assert!(!block.matches("10.0.1.5"));
    assert!(block.matches("10.0.0.0"));
    assert!(block.matches("10.0.0.255"));
    assert!(!block.matches("10.0.255.0"));
    assert!(!block.matches("11.0.0.5"));
}

#[test]
fn host_route_holds_one_address() {
    let block = IpBlock::new("1.2.3.4/32");
    assert!(block.matches("1.2.3.4"));
    assert!(!block.matches("1.2.3.5"));
    assert!(!block.matches("1.2.3.3"));
    assert!(!block.matches("0.2.3.4"));
    assert!(!block.matches("129.2.3.4"));
    assert!(!block.matches("1.2.3"));
}

#[test]
fn missing_prefix_is_a_host_route() {
    let block = IpBlock::new("1.2.3.4");
    assert!(block.matches("1.2.3.4"));
    assert!(!block.matches("1.2.3.5"));
    let block = IpBlock::new("1.2.3.4/");
    assert!(block.matches("1.2.3.4"));
    assert!(!block.matches("1.2.3.5"));
}

#[test]
fn malformed_prefix_is_a_host_route() {
    for range in ["1.2.3.4/abc", "1.2.3.4/33", "1.2.3.4/255", "1.2.3.4/256", "1.2.3.4/-1", "1.2.3.4/ 24", "1.2.3.4/2 4"] {
        let block = IpBlock::new(range);
        assert!(block.matches("1.2.3.4"));
        assert!(!block.matches("1.2.3.5"));
        assert!(!block.matches("1.2.2.4"));
    }
}

#[test]
fn prefix_is_read_between_the_first_two_slashes() {
    let block = IpBlock::new("10.0.0.0/24/8");
    assert!(block.matches("10.0.0.9"));
    assert!(!block.matches("10.0.1.9"));
    let block = IpBlock::new("10.0.0.0/+24");
    assert!(block.matches("10.0.0.9"));
    assert!(!block.matches("10.0.1.9"));
}

#[test]
fn prefix_zero_holds_every_address() {
    let block = IpBlock::new("10.0.0.0/0");
    assert!(block.matches("10.0.0.1"));
    assert!(block.matches("200.1.2.3"));
    assert!(block.matches("255.255.255.255"));
    assert!(block.matches("0.0.0.0"));
    assert!(block.matches("rubbish"));
}

#[test]
fn block_address_is_masked() {
    let block = IpBlock::new("10.0.0.77/24");
    assert!(block.matches("10.0.0.1"));
    assert!(!block.matches("10.0.1.77"));
    let block = IpBlock::new("192.168.1.128/25");
    assert!(block.matches("192.168.1.129"));
    assert!(block.matches("192.168.1.255"));
    assert!(!block.matches("192.168.1.127"));
    let block = IpBlock::new("10.0.0.0/8");
    assert!(block.matches("10.255.1.1"));
    assert!(!block.matches("11.0.0.0"));
    let block = IpBlock::new("128.0.0.0/1");
    assert!(block.matches("200.0.0.1"));
    assert!(!block.matches("127.255.255.255"));
    let block = IpBlock::new("10.0.0.2/31");
    assert!(block.matches("10.0.0.3"));
    assert!(!block.matches("10.0.0.4"));
}

#[test]
fn block_without_address_is_the_zero_network() {
    let block = IpBlock::new("/24");
    assert!(block.matches("0.0.0.9"));
    assert!(!block.matches("0.0.1.0"));
    let block = IpBlock::new("");
    assert!(block.matches("0.0.0.0"));
    assert!(block.matches("nothing"));
    assert!(!block.matches("0.0.0.1"));
}

#[test]
fn matching_twice_gives_the_same_answer() {
    let block = IpBlock::new("10.0.0.0/24");
    for ip in ["10.0.0.5", "10.0.1.5", "", "x"] {
        assert_eq!(block.matches(ip), block.matches(ip));
        assert_eq!(match_ip(ip, "10.0.0.0/24"), block.matches(ip));
    }
}

#[test]
fn match_ip_takes_the_address_first_and_the_block_second() {
    assert!(match_ip("10.0.0.5", "10.0.0.0/24"));
    assert!(!match_ip("10.0.1.5", "10.0.0.0/24"));
    assert!(!match_ip("10.0.0.0", "10.0.0.5"));
}
