use zentinel::addr::IpAddr;
use zentinel::net::{Cidr, CidrParseError};


fn cidr(s: &str) -> Cidr {
    s.parse().expect("test CIDR must parse")
}

fn ip(s: &str) -> IpAddr {
    IpAddr::parse(s).expect("test IP must parse")
}

#[test]
fn v4_prefix_match_and_boundary() {
    let block = cidr("10.0.0.0/8");
    assert!(block.contains(ip("10.0.0.1")));
    assert!(block.contains(ip("10.255.255.255")));
    assert!(!block.contains(ip("11.0.0.0")));
    assert!(!block.contains(ip("9.255.255.255")));
}

#[test]
fn v4_host_route_matches_only_itself() {
    let block = cidr("192.0.2.7/32");
    assert!(block.contains(ip("192.0.2.7")));
    assert!(!block.contains(ip("192.0.2.8")));
}

#[test]
fn zero_prefix_matches_everything_in_family() {
    assert!(cidr("0.0.0.0/0").contains(ip("203.0.113.9")));
    assert!(cidr("::/0").contains(ip("2001:db8::1")));
    // /0 does not cross families.
    assert!(!cidr("0.0.0.0/0").contains(ip("2001:db8::1")));
}

#[test]
fn v6_prefix_match() {
    let block = cidr("2001:db8::/32");
    assert!(block.contains(ip("2001:db8::1")));
    assert!(block.contains(ip("2001:db8:ffff::1")));
    assert!(!block.contains(ip("2001:db9::1")));
}

#[test]
fn v4_mapped_v6_client_matches_v4_block() {
    let block = cidr("10.0.0.0/8");
    assert!(block.contains(ip("::ffff:10.1.2.3")));
    assert!(!block.contains(ip("::ffff:11.1.2.3")));
}

#[test]
fn families_do_not_cross() {
    assert!(!cidr("10.0.0.0/8").contains(ip("fd00::1")));
    assert!(!cidr("fd00::/8").contains(ip("10.0.0.1")));
}

#[test]
fn parse_rejects_malformed_input() {
    assert_eq!(
        "10.0.0.0".parse::<Cidr>(),
        Err(CidrParseError::MissingPrefix("10.0.0.0".to_string()))
    );
    assert_eq!(
        "banana/8".parse::<Cidr>(),
        Err(CidrParseError::InvalidAddress("banana".to_string()))
    );
    assert_eq!(
        "10.0.0.0/x".parse::<Cidr>(),
        Err(CidrParseError::InvalidPrefix("x".to_string()))
    );
    assert_eq!(
        "10.0.0.0/33".parse::<Cidr>(),
        Err(CidrParseError::PrefixTooLong {
            prefix: 33,
            max: 32
        })
    );
    assert_eq!(
        "::/129".parse::<Cidr>(),
        Err(CidrParseError::PrefixTooLong {
            prefix: 129,
            max: 128
        })
    );
}

#[test]
fn display_round_trips() {
    assert_eq!(cidr("10.0.0.0/8").text(), "10.0.0.0/8");
    assert_eq!(cidr("2001:db8::/32").text(), "2001:db8::/32");
}

#[test]
fn parse_errors_say_what_is_wrong() {
    assert_eq!(
        CidrParseError::MissingPrefix("10.0.0.0".to_string()).message(),
        "expected 'address/prefix' form, got '10.0.0.0'"
    );
    assert_eq!(
        CidrParseError::InvalidAddress("banana".to_string()).message(),
        "invalid IP address 'banana'"
    );
    assert_eq!(
        CidrParseError::InvalidPrefix("x".to_string()).message(),
        "invalid prefix length 'x'"
    );
    assert_eq!(
        CidrParseError::PrefixTooLong { prefix: 33, max: 32 }.message(),
        "prefix length 33 exceeds maximum 32 for this address family"
    );
}

#[test]
fn mapped_block_is_stored_as_v4() {
    assert_eq!(cidr("::ffff:10.0.0.0/8").text(), "10.0.0.0/8");
    assert_eq!(
        "::ffff:10.0.0.0/104".parse::<Cidr>(),
        Err(CidrParseError::PrefixTooLong { prefix: 104, max: 32 })
    );
}

#[test]
fn only_one_slash_makes_a_block() {
    for s in ["10.0.0.0/8/8", "10.0.0.0//8", "::/0/", "//", ""] {
        assert_eq!(
            s.parse::<Cidr>(),
            Err(CidrParseError::MissingPrefix(s.to_string()))
        );
    }
}
