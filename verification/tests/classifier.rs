use dpi_desync::packets::is_http;
use dpi_desync::packets::is_tls_hello;

#[test]
fn http_anchor_basic() {
    let buf = "GET / HTTP/1.1\r\nHost: example.com\r\n\r\n".as_bytes();
    assert_eq!(is_http(buf), Some(22));
    assert_eq!(buf[22], b'e');
}

#[test]
fn http_case_insensitive_host() {
    let buf = "POST /x HTTP/1.1\r\nhOsT:   val\r\n\r\n".as_bytes();
    assert_eq!(is_http(buf), Some(26));
    assert_eq!(buf[26], b'v');
}

#[test]
fn http_upper_case_host() {
    let buf = "PUT /y HTTP/1.1\r\nHOST:z\r\n\r\n".as_bytes();
    assert_eq!(is_http(buf), Some(22));
    assert_eq!(buf[22], b'z');
}

#[test]
fn http_without_host_header() {
    let buf = "GET / HTTP/1.1\r\n\r\n".as_bytes();
    assert_eq!(is_http(buf), None);
}

#[test]
fn http_host_value_all_spaces() {
    let buf = "GET / HTTP/1.1\r\nHost:   ".as_bytes();
    assert_eq!(is_http(buf), None);
}

#[test]
fn http_not_a_method() {
    assert_eq!(is_http("hello world".as_bytes()), None);
    assert_eq!(is_http("get / HTTP/1.1\r\nHost: a\r\n\r\n".as_bytes()), None);
    assert_eq!(is_http(&[]), None);
}

#[test]
fn http_all_nine_methods_accepted() {
    for m in [
        "HEAD", "GET", "POST", "PUT", "DELETE", "OPTIONS", "CONNECT", "TRACE", "PATCH",
    ] {
        let req = format!("{m} / HTTP/1.1\r\nHost: h\r\n\r\n");
        let anchor = is_http(req.as_bytes());
        let expected = req.find("Host:").unwrap() + 6;
        assert_eq!(anchor, Some(expected));
        assert_eq!(req.as_bytes()[expected], b'h');
    }
}

#[test]
fn tls_anchor_nine_past_first_zero_pair() {
    // Handshake record, version 3.3, first handshake byte a ClientHello;
    // the first zero pair starts at index 8.
    let buf = [
        0x16u8, 0x03, 0x03, 0x00, 0x20, 0x01, 0xaa, 0xbb, 0x00, 0x00, 0xcc, 0xdd,
    ];
    assert_eq!(is_tls_hello(&buf), Some(17));
}

#[test]
fn tls_zero_pair_inside_header_counts() {
    // The search covers the whole buffer, header included: version 3.0 with a
    // short length puts the first zero pair at index 2.
    let buf = [0x16u8, 0x03, 0x00, 0x00, 0x05, 0x01, 0xaa, 0xbb, 0xcc];
    assert_eq!(is_tls_hello(&buf), Some(11));
}

#[test]
fn tls_wrong_header_rejected() {
    assert_eq!(is_tls_hello(&[0x17, 0x03, 0x03, 0x00, 0x20, 0x01, 0x00, 0x00]), None);
    assert_eq!(is_tls_hello(&[0x16, 0x02, 0x03, 0x00, 0x20, 0x01, 0x00, 0x00]), None);
    assert_eq!(is_tls_hello(&[0x16, 0x03, 0x03, 0x00, 0x20, 0x02, 0x00, 0x00]), None);
    assert_eq!(is_tls_hello(&[0x16, 0x03, 0x03, 0x00, 0x20]), None);
    assert_eq!(is_tls_hello(&[]), None);
}

#[test]
fn tls_without_zero_pair_rejected() {
    let buf = [0x16u8, 0x03, 0x01, 0x01, 0x20, 0x01, 0xaa, 0xbb, 0xcc, 0xdd];
    assert_eq!(is_tls_hello(&buf), None);
}
