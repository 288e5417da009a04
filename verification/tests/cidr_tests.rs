use netscan::cidr::{cidr_to_ip_addresses, expand, is_valid_cidr_size, scan_targets, CidrError};
use netscan::ipv4::is_valid_ip;

#[test]
fn test_cidr_to_ip_addresses() {
    let expected_ips: Vec<String> = ["192.168.1.2", "192.168.1.3"].map(String::from).to_vec();
    assert_eq!(expected_ips, cidr_to_ip_addresses("192.168.1.2/31").unwrap());
}

#[test]
fn test_cidr_to_ip_addresses_errors() {
    // Empty CIDR
    let result = cidr_to_ip_addresses("");
    assert!(matches!(result, Err(_)));

    // Invalid CIDR format (too many parts)
    let result = cidr_to_ip_addresses("192.168.1.0/24/32");
    assert!(matches!(result, Err(_)));

    // Invalid CIDR format (too few parts)
    let result = cidr_to_ip_addresses("192.168.1.0");
    assert!(matches!(result, Err(_)));

    // Invalid IP address
    let result = cidr_to_ip_addresses("invalid/24");
    assert!(matches!(result, Err(err) if err.message().contains("Invalid IP")));

    // Invalid prefix length
    let result = cidr_to_ip_addresses("192.168.1.0/64");
    assert!(matches!(result, Err(_)));
}

#[test]
fn test_is_valid_cidr_size() {
    assert_eq!(true, is_valid_cidr_size("1"));
    assert_eq!(true, is_valid_cidr_size("21"));
    assert_eq!(true, is_valid_cidr_size("32"));
    assert_eq!(false, is_valid_cidr_size("1k"));
    assert_eq!(false, is_valid_cidr_size(" 7"));
    assert_eq!(false, is_valid_cidr_size(""));
}

#[test]
fn test_is_valid_ip() {
    assert_eq!(true, is_valid_ip("192.168.1.1"));
    assert_eq!(true, is_valid_ip("10.0.11.100"));
    assert_eq!(false, is_valid_ip("22.256.1.1"));
    assert_eq!(false, is_valid_ip("192.168,1.1"));
    assert_eq!(false, is_valid_ip("This is an invalid IP address"));
}

#[test]
fn cidr_size_accepts_from_str_forms() {
    // u8::from_str accepts a leading `+` and leading zeros.
    assert_eq!(true, is_valid_cidr_size("+7"));
    assert_eq!(true, is_valid_cidr_size("07"));
    assert_eq!(false, is_valid_cidr_size("33"));
    assert_eq!(false, is_valid_cidr_size("0"));
    assert_eq!(false, is_valid_cidr_size("+"));
    assert_eq!(false, is_valid_cidr_size("99999999999999999999"));
}

#[test]
fn str_to_u8_parses_bytes() {
    assert_eq!(Some(42), netscan::cidr::str_to_u8("42"));
    assert_eq!(Some(7), netscan::cidr::str_to_u8("+7"));
    assert_eq!(Some(255), netscan::cidr::str_to_u8("255"));
    assert_eq!(None, netscan::cidr::str_to_u8("256"));
    assert_eq!(None, netscan::cidr::str_to_u8(""));
    assert_eq!(None, netscan::cidr::str_to_u8("12a"));
}

#[test]
fn ipv4_literals_are_strict() {
    assert_eq!(true, is_valid_ip("0.0.0.0"));
    assert_eq!(true, is_valid_ip("255.255.255.255"));
    assert_eq!(false, is_valid_ip("01.2.3.4"));
    assert_eq!(false, is_valid_ip("1.2.3.04"));
    assert_eq!(false, is_valid_ip("+1.2.3.4"));
    assert_eq!(false, is_valid_ip("1.2.3"));
    assert_eq!(false, is_valid_ip("1.2.3.4.5"));
    assert_eq!(false, is_valid_ip(""));
}

#[test]
fn expansion_count_and_order() {
    // A /30 yields exactly 2^(32-30) = 4 addresses in ascending order,
    // from the network address to the broadcast address.
    let v = cidr_to_ip_addresses("10.0.0.0/30").unwrap();
    assert_eq!(
        v,
        ["10.0.0.0", "10.0.0.1", "10.0.0.2", "10.0.0.3"].map(String::from).to_vec()
    );

    // The network address is derived by masking: a mid-block address
    // expands to the same block.
    let v = cidr_to_ip_addresses("10.0.0.5/30").unwrap();
    assert_eq!(
        v,
        ["10.0.0.4", "10.0.0.5", "10.0.0.6", "10.0.0.7"].map(String::from).to_vec()
    );

    let v = cidr_to_ip_addresses("192.168.1.0/29").unwrap();
    assert_eq!(v.len(), 8);
    assert_eq!(v[0], "192.168.1.0");
    assert_eq!(v[7], "192.168.1.7");
}

#[test]
fn expand_distinguishes_errors() {
    // Without a slash the target is judged as a bare address.
    assert_eq!(expand(""), Err(CidrError::InvalidAddress));
    assert_eq!(expand("192.168.1.0/24/32"), Err(CidrError::InvalidCidrFormat));
    assert_eq!(expand("invalid/24"), Err(CidrError::InvalidCidrAddress));
    assert_eq!(expand("192.168.1.0/64"), Err(CidrError::InvalidCidrSize));
    assert_eq!(expand("192.168.1.0/0"), Err(CidrError::InvalidCidrSize));
    assert_eq!(expand("192.168.1.0/"), Err(CidrError::InvalidCidrSize));
    assert_eq!(expand("not an address"), Err(CidrError::InvalidAddress));
}

#[test]
fn expand_bare_address() {
    // A bare valid address resolves to itself alone.
    assert_eq!(expand("192.168.1.2"), Ok(vec![String::from("192.168.1.2")]));
    assert_eq!(expand("192.168.1.2/31").unwrap().len(), 2);
}

#[test]
fn scan_targets_collapses_errors() {
    assert_eq!(scan_targets("junk/24"), Vec::<String>::new());
    assert_eq!(scan_targets("junk"), Vec::<String>::new());
    assert_eq!(scan_targets("10.1.2.3"), vec![String::from("10.1.2.3")]);
    assert_eq!(scan_targets("10.1.2.3/31").len(), 2);
}

#[test]
fn error_messages() {
    assert_eq!(
        CidrError::InvalidCidrFormat.message(),
        "ERROR: Invalid CIDR format"
    );
    assert_eq!(
        CidrError::InvalidCidrAddress.message(),
        "ERROR: Invalid IP of CIDR address"
    );
    assert_eq!(
        CidrError::InvalidCidrSize.message(),
        "ERROR: Invalid size of CIDR address"
    );
}
