//! Endpoint string parsing and rendering.
use ptr_audit::endpoint::{format_endpoint_chars, Endpoint, EndpointError};
use ptr_audit::ip::IpAddress;

#[test]
fn can_parse_ipv4_and_port_to_socket_addr() {
    let ip_port = "127.0.0.1:53";

    let sa = Endpoint::parse(ip_port).unwrap();

    assert_eq!(IpAddress::V4(127, 0, 0, 1), sa.ip);
    assert_eq!(53, sa.port);
}

#[test]
fn can_parse_ipv6_and_port_to_socket_addr() {
    let ip_port = "[::1]:53";

    let sa = Endpoint::parse(ip_port).unwrap();

    assert_eq!(IpAddress::V6(0, 0, 0, 0, 0, 0, 0, 1), sa.ip);
    assert_eq!(53, sa.port);
}

#[test]
fn can_parse_ipv4_without_port_to_socket_addr() {
    let ip_port = "127.0.0.1";

    let sa = Endpoint::parse(ip_port).unwrap();

    assert_eq!(IpAddress::V4(127, 0, 0, 1), sa.ip);
    assert_eq!(53, sa.port);
}

#[test]
fn can_parse_ipv6_without_port_to_socket_addr() {
    let ip_port = "[::1]";

    let sa = Endpoint::parse(ip_port).unwrap();

    assert_eq!(IpAddress::V6(0, 0, 0, 0, 0, 0, 0, 1), sa.ip);
    assert_eq!(53, sa.port);
}

#[test]
#[should_panic]
fn panics_on_parsing_invalid_port() {
    let ip_port = "[::1]:abc";

    let _sa = Endpoint::parse(ip_port).unwrap();
}

#[test]
#[should_panic]
fn panics_on_parsing_too_big_port() {
    let ip_port = "[::1]:66666";

    let _sa = Endpoint::parse(ip_port).unwrap();
}

#[test]
#[should_panic]
fn panics_on_parsing_zero_port() {
    let ip_port = "[::1]:0";

    let _sa = Endpoint::parse(ip_port).unwrap();
}

#[test]
#[should_panic]
fn panics_on_parsing_invalid_ipv4() {
    let ip_port = "127.0.0.300";

    let _sa = Endpoint::parse(ip_port).unwrap();
}

#[test]
#[should_panic]
fn panics_on_parsing_invalid_ipv6() {
    let ip_port = "[foo]";

    let _sa = Endpoint::parse(ip_port).unwrap();
}

#[test]
fn invalid_port_errors_carry_the_port_text() {
    match Endpoint::parse("[::1]:0") {
        Err(EndpointError::InvalidPort(t)) => assert_eq!(t, "0"),
        other => panic!("expected InvalidPort, got {:?}", other),
    }
    match Endpoint::parse("[::1]:abc") {
        Err(EndpointError::InvalidPort(t)) => assert_eq!(t, "abc"),
        other => panic!("expected InvalidPort, got {:?}", other),
    }
    match Endpoint::parse("[::1]:66666") {
        Err(EndpointError::InvalidPort(t)) => assert_eq!(t, "66666"),
        other => panic!("expected InvalidPort, got {:?}", other),
    }
}

#[test]
fn invalid_address_errors_carry_the_address_text() {
    match Endpoint::parse("127.0.0.300") {
        Err(EndpointError::InvalidAddress(t)) => assert_eq!(t, "127.0.0.300"),
        other => panic!("expected InvalidAddress, got {:?}", other),
    }
    match Endpoint::parse("[foo]") {
        Err(EndpointError::InvalidAddress(t)) => assert_eq!(t, "foo"),
        other => panic!("expected InvalidAddress, got {:?}", other),
    }
}

#[test]
fn parses_full_and_embedded_ipv6_forms() {
    let sa = Endpoint::parse("[1:2:3:4:5:6:7:8]:80").unwrap();
    assert_eq!(IpAddress::V6(1, 2, 3, 4, 5, 6, 7, 8), sa.ip);
    assert_eq!(80, sa.port);

    let sa = Endpoint::parse("[::]:53").unwrap();
    assert_eq!(IpAddress::V6(0, 0, 0, 0, 0, 0, 0, 0), sa.ip);

    let sa = Endpoint::parse("[::ffff:192.0.2.1]:53").unwrap();
    assert_eq!(IpAddress::V6(0, 0, 0, 0, 0, 0xffff, 0xc000, 0x0201), sa.ip);

    let sa = Endpoint::parse("[2001:db8::1]").unwrap();
    assert_eq!(IpAddress::V6(0x2001, 0xdb8, 0, 0, 0, 0, 0, 1), sa.ip);
    assert_eq!(53, sa.port);
}

#[test]
fn embedded_ipv4_tail_contributes_two_groups() {
    let sa = Endpoint::parse("[1::13.1.68.3]:53").unwrap();
    assert_eq!(IpAddress::V6(1, 0, 0, 0, 0, 0, 0x0d01, 0x4403), sa.ip);
}

#[test]
fn rejects_malformed_ipv6_forms() {
    assert!(Endpoint::parse("[1:2.3.4.5:6]").is_err());
    assert!(Endpoint::parse("[1.2.3.4::]").is_err());
    assert!(Endpoint::parse("[1:2:3:4:5:6:7]").is_err());
    assert!(Endpoint::parse("[1:2:3:4:5:6:7:8:9]").is_err());
    assert!(Endpoint::parse("[1::2::3]").is_err());
    assert!(Endpoint::parse("[12345::1]").is_err());
    assert!(Endpoint::parse("[1:2:3:4:5:6:7::8]").is_err());
}

#[test]
fn rejects_malformed_ipv4_forms() {
    assert!(Endpoint::parse("1.2.3").is_err());
    assert!(Endpoint::parse("1.2.3.4.5").is_err());
    assert!(Endpoint::parse("01.2.3.4").is_err());
    assert!(Endpoint::parse("1.2.3.256").is_err());
    assert!(Endpoint::parse("").is_err());
}

#[test]
fn bare_ipv6_needs_brackets_when_it_could_name_a_port() {
    // Without brackets the run after the last colon is read as the port, so
    // the remainder is no valid address.
    assert!(matches!(
        Endpoint::parse("::1"),
        Err(EndpointError::InvalidAddress(_))
    ));
    assert!(matches!(
        Endpoint::parse("1:2:3:4:5:6:7:8"),
        Err(EndpointError::InvalidAddress(_))
    ));

    // A trailing colon run that cannot be a port falls through to the
    // address branch.
    let sa = Endpoint::parse("::").unwrap();
    assert_eq!(IpAddress::V6(0, 0, 0, 0, 0, 0, 0, 0), sa.ip);
    assert_eq!(53, sa.port);
}

#[test]
fn port_text_must_be_a_digit_run() {
    assert!(matches!(
        Endpoint::parse("[::1]:+53"),
        Err(EndpointError::InvalidPort(_))
    ));
    assert!(matches!(
        Endpoint::parse("127.0.0.1: 53"),
        Err(EndpointError::InvalidPort(_))
    ));
    // Leading zeros are value-irrelevant and accepted.
    let sa = Endpoint::parse("127.0.0.1:0053").unwrap();
    assert_eq!(53, sa.port);
}

#[test]
fn format_then_parse_round_trips() {
    let cases = vec![
        Endpoint { ip: IpAddress::V4(192, 0, 2, 7), port: 8053 },
        Endpoint { ip: IpAddress::V4(0, 0, 0, 0), port: 1 },
        Endpoint { ip: IpAddress::V6(0, 0, 0, 0, 0, 0, 0, 1), port: 53 },
        Endpoint { ip: IpAddress::V6(0x2001, 0xdb8, 0, 0, 0xffff, 0, 0x10, 0xabcd), port: 65535 },
    ];
    for ep in cases {
        let text: String = format_endpoint_chars(&ep).into_iter().collect();
        let back = Endpoint::parse(&text).unwrap();
        assert_eq!(ep, back);
    }
}

#[test]
fn formats_in_canonical_form() {
    let ep = Endpoint { ip: IpAddress::V4(10, 0, 0, 200), port: 53 };
    let text: String = format_endpoint_chars(&ep).into_iter().collect();
    assert_eq!(text, "10.0.0.200:53");

    let ep = Endpoint { ip: IpAddress::V6(0, 0, 0, 0, 0, 0, 0, 1), port: 53 };
    let text: String = format_endpoint_chars(&ep).into_iter().collect();
    assert_eq!(text, "[0:0:0:0:0:0:0:1]:53");
}
