use netscan::ipv4::is_valid_ip;
use netscan::ipv6::is_valid_ipv6;

#[test]
fn ipv6_literals_accepted() {
    assert_eq!(true, is_valid_ipv6("::"));
    assert_eq!(true, is_valid_ipv6("::1"));
    assert_eq!(true, is_valid_ipv6("fe80::"));
    assert_eq!(true, is_valid_ipv6("1:2:3:4:5:6:7:8"));
    assert_eq!(true, is_valid_ipv6("a:B:c:D:0:ffff:1234:0000"));
    assert_eq!(true, is_valid_ipv6("1::8"));
    assert_eq!(true, is_valid_ipv6("1:2:3:4:5:6:7::"));
    assert_eq!(true, is_valid_ipv6("::1:2:3:4:5:6:7"));
    assert_eq!(true, is_valid_ipv6("::ffff:192.168.1.1"));
    assert_eq!(true, is_valid_ipv6("1:2:3:4:5:6:192.168.1.1"));
    assert_eq!(true, is_valid_ipv6("1::192.168.1.1"));
}

#[test]
fn ipv6_literals_rejected() {
    assert_eq!(false, is_valid_ipv6(""));
    assert_eq!(false, is_valid_ipv6(":"));
    assert_eq!(false, is_valid_ipv6(":::"));
    assert_eq!(false, is_valid_ipv6("1::2::3"));
    assert_eq!(false, is_valid_ipv6("1:2:3:4:5:6:7"));
    assert_eq!(false, is_valid_ipv6("1:2:3:4:5:6:7:8:9"));
    assert_eq!(false, is_valid_ipv6("12345::"));
    assert_eq!(false, is_valid_ipv6("::1:2:3:4:5:6:7:8"));
    assert_eq!(false, is_valid_ipv6("1:2:3:4:5:6:7:192.168.1.1"));
    assert_eq!(false, is_valid_ipv6("g::"));
    assert_eq!(false, is_valid_ipv6("192.168.1.1::"));
    assert_eq!(false, is_valid_ipv6(":1:2:3:4:5:6:7"));
    assert_eq!(false, is_valid_ipv6("1:2:3:4:5:6:7:"));
    assert_eq!(false, is_valid_ipv6("1::2.3.4.05"));
    assert_eq!(false, is_valid_ipv6("fe80::1%eth0"));
    assert_eq!(false, is_valid_ipv6("192.168.1.1"));
}

#[test]
fn bare_targets_of_either_family() {
    assert_eq!(true, is_valid_ip("192.168.1.1"));
    assert_eq!(true, is_valid_ip("::1"));
    assert_eq!(true, is_valid_ip("fe80::a:b"));
    assert_eq!(false, is_valid_ip("example.com"));
}
