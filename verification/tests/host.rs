use httpx_urls::error::InvalidUrl;
use httpx_urls::host::{
    classify_host, encode_host, encode_idna, is_valid_ipv4, is_valid_ipv6, HostEncoding, HostKind,
};

fn encoded(s: &str) -> Result<HostEncoding, InvalidUrl> {
    Ok(HostEncoding::Encoded(s.to_string()))
}

fn fails(message: &str) -> Result<HostEncoding, InvalidUrl> {
    Err(InvalidUrl { message: message.to_string() })
}

fn v4(s: &str) -> bool {
    is_valid_ipv4(&s.chars().collect())
}

fn v6(s: &str) -> bool {
    is_valid_ipv6(&s.chars().collect())
}

#[test]
fn encode_host_of_the_empty_host() {
    assert_eq!(encode_host(""), encoded(""));
}

#[test]
fn encode_host_lower_cases_an_ascii_name() {
    assert_eq!(encode_host("EXAMPLE.com"), encoded("example.com"));
}

#[test]
fn encode_host_keeps_an_ipv4_literal() {
    assert_eq!(encode_host("1.2.3.4"), encoded("1.2.3.4"));
}

#[test]
fn encode_host_refuses_an_octet_out_of_range() {
    assert_eq!(encode_host("1.2.3.999"), fails("Invalid IPv4 address: '1.2.3.999'"));
}

#[test]
fn encode_host_keeps_an_ipv6_literal() {
    assert_eq!(encode_host("[::1]"), encoded("[::1]"));
    assert_eq!(encode_host("[2001:DB8::ff00:42:8329]"), encoded("[2001:DB8::ff00:42:8329]"));
}

#[test]
fn encode_host_refuses_brackets_around_no_address() {
    assert_eq!(encode_host("[not-an-ip]"), fails("Invalid IPv6 address: '[not-an-ip]'"));
    assert_eq!(encode_host("[]"), fails("Invalid IPv6 address: '[]'"));
    assert_eq!(encode_host("[é]"), fails("Invalid IPv6 address: '[é]'"));
}

#[test]
fn encode_host_quotes_an_ascii_name() {
    assert_eq!(encode_host("A b"), encoded("a%20b"));
    assert_eq!(encode_host("a%20B"), encoded("a%20b"));
    assert_eq!(encode_host("a%41"), encoded("a%41"));
    assert_eq!(encode_host("a!$&'()*+,;=\"`{}|\\%b"), encoded("a!$&'()*+,;=\"`{}|\\%b"));
    assert_eq!(encode_host("a/b:c@d"), encoded("a%2Fb%3Ac%40d"));
}

#[test]
fn encode_host_takes_digits_and_dots_in_another_shape_as_a_name() {
    assert_eq!(encode_host("1.2.3"), encoded("1.2.3"));
    assert_eq!(encode_host("1.2.3.4.5"), encoded("1.2.3.4.5"));
    assert_eq!(encode_host("1.2.3.4\n"), encoded("1.2.3.4%0A"));
}

#[test]
fn encode_host_with_a_line_feed_between_brackets_is_a_name() {
    assert_eq!(encode_host("[\n]"), encoded("%5B%0A%5D"));
}

#[test]
fn encode_host_hands_other_names_to_idna() {
    assert_eq!(encode_host("BÜCHER.example"), Ok(HostEncoding::NeedsIdna("bücher.example".to_string())));
    assert_eq!(encode_host("中国.ICOM.museum"), Ok(HostEncoding::NeedsIdna("中国.icom.museum".to_string())));
}

#[test]
fn encode_host_tries_the_literals_before_the_names() {
    assert_eq!(encode_host("999.1.1.1"), fails("Invalid IPv4 address: '999.1.1.1'"));
    assert_eq!(encode_host("[[::1]]"), fails("Invalid IPv6 address: '[[::1]]'"));
    assert_eq!(encode_host("[]::1]"), fails("Invalid IPv6 address: '[]::1]'"));
}

#[test]
fn encode_idna_passes_the_answer_on() {
    assert_eq!(
        encode_idna("bücher.example", Some("xn--bcher-kva.example".to_string())),
        Ok("xn--bcher-kva.example".to_string())
    );
}

#[test]
fn encode_idna_names_the_host_that_was_refused() {
    assert_eq!(
        encode_idna("a..é", None),
        Err(InvalidUrl { message: "Invalid IDNA hostname: 'a..é'".to_string() })
    );
}

#[test]
fn ipv4_addresses() {
    assert!(v4("0.0.0.0"));
    assert!(v4("255.255.255.255"));
    assert!(v4("127.0.0.1"));
    assert!(!v4("256.0.0.0"));
    assert!(!v4("01.2.3.4"));
    assert!(!v4("1.2.3.00"));
    assert!(!v4("1.2.3"));
    assert!(!v4("1.2.3.4.5"));
    assert!(!v4("1.2..4"));
    assert!(!v4("1.2.3.4 "));
    assert!(!v4("1.2.3.1000"));
    assert!(!v4("a.b.c.d"));
    assert!(!v4(""));
}

#[test]
fn ipv4_addresses_at_the_edges() {
    for good in ["0.0.0.0", "1.2.3.4", "255.255.255.255", "99.99.99.99", "100.200.250.249"] {
        assert!(v4(good), "{}", good);
    }
    for bad in [
        "256.1.1.1", "01.1.1.1", "1.1.1.01", "1.1.1", "1.1.1.1.1", "1..1.1", ".1.1.1", "1.1.1.", "1.1.1.1 ", " 1.1.1.1",
        "000.0.0.0", "0.00.0.0", "1.2.3.0004", "+1.2.3.4", "1.2.3.-4", "١.2.3.4", "", "...", "1.2.3.4.",
    ] {
        assert!(!v4(bad), "{}", bad);
    }
}

#[test]
fn ipv6_addresses() {
    assert!(v6("::"));
    assert!(v6("::1"));
    assert!(v6("1::"));
    assert!(v6("1:2:3:4:5:6:7:8"));
    assert!(v6("1:2:3:4:5:6:7::"));
    assert!(v6("::2:3:4:5:6:7:8"));
    assert!(v6("1::3:4:5:6:7:8"));
    assert!(v6("::ffff:1.2.3.4"));
    assert!(v6("1:2:3:4:5:6:1.2.3.4"));
    assert!(v6("::1.2.3.4"));
    assert!(v6("FFFF:abcd::0"));
    assert!(!v6(""));
    assert!(!v6(":"));
    assert!(!v6(":::"));
    assert!(!v6("1:2:3:4:5:6:7"));
    assert!(!v6("1:2:3:4:5:6:7:8:9"));
    assert!(!v6("1:2:3:4:5:6:7:8::"));
    assert!(!v6("::1:2:3:4:5:6:7:8"));
    assert!(!v6("1::2::3"));
    assert!(!v6("12345::"));
    assert!(!v6("g::"));
    assert!(!v6("1.2.3.4"));
    assert!(!v6("1.2.3.4::"));
    assert!(!v6("::1.2.3.4:5"));
    assert!(!v6("1:2:3:4:5:6:7:1.2.3.4"));
    assert!(!v6("1:2:3:4:5:1.2.3.4"));
    assert!(!v6("::1.2.3.256"));
    assert!(!v6(":1"));
    assert!(!v6("1:"));
    assert!(!v6("::1%eth0"));
}

#[test]
fn ipv6_addresses_at_the_edges() {
    for good in [
        "::", "::1", "1::", "1::1", "1:2:3:4:5:6:7:8", "1:2:3:4:5:6:7::", "::2:3:4:5:6:7:8", "1::3:4:5:6:7:8",
        "1:2:3:4::5:6:7", "0:0:0:0:0:0:0:0", "ffff::", "FFFF::", "fFfF:0001::", "::1.2.3.4", "::ffff:1.2.3.4",
        "1:2:3:4:5:6:1.2.3.4", "1:2:3:4:5::1.2.3.4", "1::2:1.2.3.4", "a:b:c:d:e:f:0:1", "::a:b:c:d:e:1.2.3.4",
        "1::1.2.3.4", "::1:2:3:4:5:6:7", "1:2:3:4:5:6::8", "1:2:3:4:5:6::", "::0.0.0.0",
    ] {
        assert!(v6(good), "{}", good);
    }
    for bad in [
        "", ":", ":::", "::::", "1", "1:", ":1", "1:::1", "1::1::", "::1::", "1:2:3:4:5:6:7", "1:2:3:4:5:6:7:8:9",
        "1:2::3:4:5:6:7:8", "1:2:3:4:5:6:7:8::", "::1:2:3:4:5:6:7:8", "1:2:3:4::5:6:7:8", "10000::", "00001::", "g::",
        "::g", "-1::", "1 ::", ":: ", " ::", "::1.2.3", "::1.2.3.4.5", "::1.2.3.256", "::01.2.3.4",
        "1:2:3:4:5:6:7:1.2.3.4", "1:2:3:4:5:1.2.3.4", "1:2:3:4:5:6::1.2.3.4", "1.2.3.4::", "1.2.3.4::1", "1.2.3.4",
        "::1.2.3.4:5", "::1.2.3.4::", "::1%eth0", "[::1]", "::ffff:", "a:b:c:d:e:f:0:1:", "::a:b:c:d:e:f:1.2.3.4",
        "::.1.2.3", "::1.2.3.", "::1..2.3", "1:2:3:4:5:6:7:", ":1:2:3:4:5:6:7", ":1:2:3:4:5:6:7:8",
    ] {
        assert!(!v6(bad), "{}", bad);
    }
}

#[test]
fn classify_host_tries_the_kinds_in_order() {
    assert_eq!(classify_host(""), HostKind::Empty);
    assert_eq!(classify_host("1.2.3.999"), HostKind::Ipv4Literal);
    assert_eq!(classify_host("[é]"), HostKind::Ipv6Literal);
    assert_eq!(classify_host("[a\nb]"), HostKind::Ascii);
    assert_eq!(classify_host("1.2.3"), HostKind::Ascii);
    assert_eq!(classify_host("١.2.3.4"), HostKind::Internationalized);
    assert_eq!(classify_host("[::1"), HostKind::Ascii);
    assert_eq!(classify_host("]"), HostKind::Ascii);
}
