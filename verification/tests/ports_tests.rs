use netscan::ports::{
    check_port_value, parse_comma_seperated_ports, parse_port_range, parse_ports_str, PortError,
};

#[test]
fn single_port() {
    assert_eq!(parse_ports_str(Some(String::from("80"))), Ok(vec![80]));
}

#[test]
fn comma_separated_ports() {
    assert_eq!(
        parse_ports_str(Some(String::from("22,80,443"))),
        Ok(vec![22, 80, 443])
    );
}

#[test]
fn port_range() {
    assert_eq!(
        parse_ports_str(Some(String::from("20-22"))),
        Ok(vec![20, 21, 22])
    );
}

#[test]
fn reversed_range_rejected() {
    assert_eq!(
        parse_ports_str(Some(String::from("22-20"))),
        Err(PortError::InvalidPortRange)
    );
}

#[test]
fn out_of_range_port_rejected() {
    // 70000 does not fit a u16, so the single-port parse step fails.
    assert_eq!(
        parse_ports_str(Some(String::from("70000"))),
        Err(PortError::InvalidPortFormat)
    );
}

#[test]
fn default_range_when_unspecified() {
    let v = parse_ports_str(None).unwrap();
    assert_eq!(v.len(), 1023);
    assert_eq!(v[0], 1);
    assert_eq!(v[1022], 1023);

    // An empty specification also means the default range.
    let v2 = parse_ports_str(Some(String::new())).unwrap();
    assert_eq!(v, v2);
}

#[test]
fn port_zero_rejected() {
    assert_eq!(
        parse_ports_str(Some(String::from("0"))),
        Err(PortError::InvalidPortValue)
    );
    assert_eq!(
        parse_ports_str(Some(String::from("22,0"))),
        Err(PortError::InvalidPortValue)
    );
    assert_eq!(
        parse_ports_str(Some(String::from("0-5"))),
        Err(PortError::InvalidPortValue)
    );
}

#[test]
fn malformed_pieces_rejected() {
    assert_eq!(
        parse_ports_str(Some(String::from("22,x"))),
        Err(PortError::InvalidPortFormat)
    );
    assert_eq!(
        parse_ports_str(Some(String::from("abc"))),
        Err(PortError::InvalidPortFormat)
    );
    assert_eq!(
        parse_ports_str(Some(String::from("5-"))),
        Err(PortError::InvalidPortFormat)
    );
    assert_eq!(
        parse_ports_str(Some(String::from("-5"))),
        Err(PortError::InvalidPortFormat)
    );
}

#[test]
fn comma_list_direct() {
    assert_eq!(parse_comma_seperated_ports("1,2,3"), Ok(vec![1, 2, 3]));
    assert_eq!(
        parse_comma_seperated_ports("1,,3"),
        Err(PortError::InvalidPortFormat)
    );
}

#[test]
fn comma_list_is_sorted_and_deduplicated() {
    // A set of ports is ascending and holds each port once.
    assert_eq!(parse_comma_seperated_ports("80,80"), Ok(vec![80]));
    assert_eq!(parse_comma_seperated_ports("443,22"), Ok(vec![22, 443]));
    assert_eq!(
        parse_ports_str(Some(String::from("22,80,22,443"))),
        Ok(vec![22, 80, 443])
    );
}

#[test]
fn range_direct() {
    assert_eq!(parse_port_range("5-7"), Ok(vec![5, 6, 7]));
    assert_eq!(parse_port_range("9-9"), Ok(vec![9]));
    // A range is exactly two integers joined by `-`.
    assert_eq!(parse_port_range("1-2-3"), Err(PortError::InvalidPortFormat));
}

#[test]
fn port_value_bounds() {
    assert_eq!(false, check_port_value(0));
    assert_eq!(true, check_port_value(1));
    assert_eq!(true, check_port_value(65535));
}

#[test]
fn port_error_messages() {
    assert_eq!(
        PortError::InvalidPortValue.message(),
        "ERROR: Invalid port value."
    );
    assert_eq!(
        PortError::InvalidPortFormat.message(),
        "ERROR: Invalid port format"
    );
    assert_eq!(
        PortError::InvalidPortRange.message(),
        "ERROR: starting port number must be less than ending port number."
    );
}

#[test]
fn from_str_forms_accepted() {
    // u16::from_str accepts a leading `+` and leading zeros.
    assert_eq!(parse_ports_str(Some(String::from("+80"))), Ok(vec![80]));
    assert_eq!(parse_ports_str(Some(String::from("0080"))), Ok(vec![80]));
    assert_eq!(parse_ports_str(Some(String::from("65535"))), Ok(vec![65535]));
}
