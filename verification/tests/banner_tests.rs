use netscan::banner::{parse_server, remove_blank_lines};

#[test]
fn http_server_header() {
    let raw = "HTTP/1.1 200 OK\r\nServer: nginx/1.18\r\n\r\n";
    assert_eq!(parse_server(raw), "nginx/1.18");
}

#[test]
fn short_greeting_taken_verbatim() {
    assert_eq!(parse_server("SSH-2.0-OpenSSH_8.9\r\n"), "SSH-2.0-OpenSSH_8.9");
}

#[test]
fn empty_response_gives_placeholder() {
    assert_eq!(parse_server(""), "Service info not available.");
    assert_eq!(parse_server("\r\n\r\n"), "Service info not available.");
}

#[test]
fn unparseable_response_gives_placeholder() {
    // More than two raw lines and no Server header.
    let raw = "one\r\ntwo\r\nthree\r\n";
    assert_eq!(parse_server(raw), "Service info not available.");
}

#[test]
fn null_byte_stops_scanning() {
    let raw = "\u{0}garbage\r\nServer: hidden\r\n";
    assert_eq!(parse_server(raw), "Service info not available.");
}

#[test]
fn header_value_keeps_later_colons() {
    let raw = "HTTP/1.1 200 OK\r\nDate: x\r\nServer:  Apache: 2.4 \r\n\r\n";
    assert_eq!(parse_server(raw), "Apache: 2.4");
}

#[test]
fn header_match_is_case_insensitive() {
    // The first case-insensitive `Server:` match yields its value.
    let raw = "HTTP/1.1 200 OK\r\nx\r\nSERVER: nginx\r\n\r\n";
    assert_eq!(parse_server(raw), "nginx");
    assert_eq!(parse_server("a\nb\nSERVER:x"), "x");
}

#[test]
fn blank_lines_removed() {
    assert_eq!(remove_blank_lines("a\r\n\r\nb\r\n"), "a\nb");
    assert_eq!(remove_blank_lines(""), "");
    assert_eq!(remove_blank_lines("  \n\t\n"), "");
    assert_eq!(remove_blank_lines("one"), "one");
}

#[test]
fn header_value_is_trimmed() {
    let raw = "HTTP/1.1 200 OK\r\nx\r\nServer:\tnginx \t\r\n\r\n";
    assert_eq!(parse_server(raw), "nginx");
}

#[test]
fn spaced_key_does_not_match_filter() {
    // `Server :` never contains the `server:` needle, so the line is skipped.
    let raw = "HTTP/1.1 200 OK\r\nx\r\nServer : nginx\r\n\r\n";
    assert_eq!(parse_server(raw), "Service info not available.");
}
