use netscan::cidr::scan_targets;
use netscan::scan::{build_report, HostResult, ProbeRecord};

fn open(host: usize, port: u16, banner: &str) -> ProbeRecord {
    ProbeRecord {
        host,
        port,
        banner: Some(String::from(banner)),
    }
}

fn closed(host: usize, port: u16) -> ProbeRecord {
    ProbeRecord {
        host,
        port,
        banner: None,
    }
}

fn assert_reports_equal(a: &[HostResult], b: &[HostResult]) {
    assert_eq!(a.len(), b.len());
    for (x, y) in a.iter().zip(b.iter()) {
        assert_eq!(x.address, y.address);
        assert_eq!(x.ports, y.ports);
    }
}

#[test]
fn unreachable_target_scanned_twice_is_empty_twice() {
    let hosts = scan_targets("10.1.1.10");
    let reach = vec![false];
    let first = build_report(&hosts, &reach, &vec![]);
    let second = build_report(&hosts, &reach, &vec![]);
    assert!(first.is_empty());
    assert!(second.is_empty());
}

#[test]
fn reachable_host_with_no_open_ports_has_no_entry() {
    let hosts = vec![String::from("127.0.0.1")];
    let reach = vec![true];
    let records = vec![closed(0, 22), closed(0, 80), closed(0, 443)];
    let first = build_report(&hosts, &reach, &records);
    let second = build_report(&hosts, &reach, &records);
    assert!(first.is_empty());
    assert!(second.is_empty());
}

#[test]
fn report_content_is_independent_of_completion_order() {
    let hosts = vec![String::from("10.0.0.1"), String::from("10.0.0.2")];
    let reach = vec![true, true];
    let in_order = vec![
        open(0, 22, "SSH-2.0-OpenSSH_8.9"),
        closed(0, 80),
        closed(1, 22),
        open(1, 80, "nginx/1.18"),
    ];
    let shuffled = vec![
        open(1, 80, "nginx/1.18"),
        closed(1, 22),
        closed(0, 80),
        open(0, 22, "SSH-2.0-OpenSSH_8.9"),
    ];
    let a = build_report(&hosts, &reach, &in_order);
    let b = build_report(&hosts, &reach, &shuffled);
    assert_reports_equal(&a, &b);
    assert_eq!(a.len(), 2);
    assert_eq!(a[0].address, "10.0.0.1");
    assert_eq!(a[0].ports, vec![(22, String::from("SSH-2.0-OpenSSH_8.9"))]);
    assert_eq!(a[1].address, "10.0.0.2");
    assert_eq!(a[1].ports, vec![(80, String::from("nginx/1.18"))]);
}

#[test]
fn hosts_keep_expansion_order_and_ports_are_sorted() {
    let hosts = vec![
        String::from("10.0.0.1"),
        String::from("10.0.0.2"),
        String::from("10.0.0.3"),
    ];
    let reach = vec![true, false, true];
    let records = vec![
        open(2, 443, "c"),
        open(0, 80, "a"),
        open(2, 22, "b"),
        closed(0, 22),
    ];
    let report = build_report(&hosts, &reach, &records);
    assert_eq!(report.len(), 2);
    assert_eq!(report[0].address, "10.0.0.1");
    assert_eq!(report[0].ports, vec![(80, String::from("a"))]);
    assert_eq!(report[1].address, "10.0.0.3");
    assert_eq!(
        report[1].ports,
        vec![(22, String::from("b")), (443, String::from("c"))]
    );
}
