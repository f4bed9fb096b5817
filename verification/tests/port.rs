use httpx_urls::error::InvalidUrl;
use httpx_urls::port::{keep_port, normalize_port, PortInput, PortNumber};

fn text(s: &str) -> PortInput {
    PortInput::Text(s.to_string())
}

fn number(n: u32) -> Result<Option<PortNumber>, InvalidUrl> {
    Ok(Some(PortNumber::from_u32(n)))
}

fn fails(message: &str) -> Result<Option<PortNumber>, InvalidUrl> {
    Err(InvalidUrl { message: message.to_string() })
}

#[test]
fn default_port_of_https_is_dropped() {
    assert_eq!(normalize_port(text("443"), "https"), Ok(None));
}

#[test]
fn other_port_of_https_is_kept() {
    assert_eq!(normalize_port(text("8443"), "https"), number(8443));
}

#[test]
fn empty_port_text_is_no_port() {
    assert_eq!(normalize_port(text(""), "http"), Ok(None));
}

#[test]
fn port_text_without_digits_fails() {
    assert_eq!(normalize_port(text("abc"), "http"), fails("Invalid port: 'abc'"));
}

#[test]
fn absent_port_is_no_port() {
    assert_eq!(normalize_port(PortInput::Absent, "https"), Ok(None));
}

#[test]
fn each_scheme_has_its_default() {
    assert_eq!(normalize_port(text("443"), "wss"), Ok(None));
    assert_eq!(normalize_port(text("80"), "http"), Ok(None));
    assert_eq!(normalize_port(text("80"), "ws"), Ok(None));
    assert_eq!(normalize_port(text("21"), "ftp"), Ok(None));
    assert_eq!(normalize_port(text("80"), "https"), number(80));
    assert_eq!(normalize_port(text("443"), "http"), number(443));
    assert_eq!(normalize_port(text("21"), "sftp"), number(21));
    assert_eq!(normalize_port(text("443"), "HTTPS"), number(443));
    assert_eq!(normalize_port(text("80"), ""), number(80));
}

#[test]
fn the_default_is_found_however_it_is_written() {
    assert_eq!(normalize_port(text("0443"), "https"), Ok(None));
    assert_eq!(normalize_port(text("+443"), "https"), Ok(None));
    assert_eq!(normalize_port(text("4_4_3"), "https"), Ok(None));
    assert_eq!(normalize_port(text("443_"), "https"), Ok(None));
}

#[test]
fn a_negative_number_is_kept() {
    assert_eq!(
        normalize_port(text("-443"), "https"),
        Ok(Some(PortNumber::from_parts(true, vec![443])))
    );
}

#[test]
fn zero_is_kept() {
    assert_eq!(normalize_port(text("0"), "http"), Ok(Some(PortNumber::from_parts(false, vec![]))));
    assert_eq!(normalize_port(text("-0"), "http"), Ok(Some(PortNumber::from_parts(false, vec![]))));
}

#[test]
fn a_port_beyond_64_bits_is_kept() {
    assert_eq!(
        normalize_port(text("18446744073709551616"), "https"),
        Ok(Some(PortNumber::from_parts(false, vec![0, 0, 1])))
    );
    assert_eq!(
        normalize_port(text("4294967739"), "https"),
        Ok(Some(PortNumber::from_parts(false, vec![443, 1])))
    );
}

#[test]
fn text_that_writes_no_integer_fails() {
    for bad in ["-", "+", "_1", "+_1", "-+1", "+-1", "++1", "--1", "1.0", " 1", "1 ", "0x50", "١"] {
        assert_eq!(normalize_port(text(bad), "http"), fails(&format!("Invalid port: '{}'", bad)));
    }
}

#[test]
fn an_integer_port_is_normalized_like_text() {
    assert_eq!(normalize_port(PortInput::Integer(PortNumber::from_u32(443)), "https"), Ok(None));
    assert_eq!(normalize_port(PortInput::Integer(PortNumber::from_u32(8080)), "https"), number(8080));
}

#[test]
fn a_value_of_another_kind_fails_with_its_printed_form() {
    assert_eq!(normalize_port(PortInput::Other("1.5".to_string()), "http"), fails("Invalid port: 1.5"));
}

#[test]
fn keep_port_compares_by_value() {
    assert_eq!(keep_port(PortNumber::from_parts(false, vec![80, 0, 0]), "http"), None);
    assert_eq!(
        keep_port(PortNumber::from_parts(false, vec![80, 1]), "http"),
        Some(PortNumber::from_parts(false, vec![80, 1]))
    );
    assert_eq!(
        keep_port(PortNumber::from_parts(true, vec![80]), "http"),
        Some(PortNumber::from_parts(true, vec![80]))
    );
}

#[test]
fn port_number_is_u32() {
    assert!(PortNumber::from_u32(0).is_u32(0));
    assert!(PortNumber::from_parts(false, vec![]).is_u32(0));
    assert!(PortNumber::from_parts(true, vec![0]).is_u32(0));
    assert!(!PortNumber::from_u32(1).is_u32(0));
    assert!(PortNumber::from_u32(65535).is_u32(65535));
    assert!(!PortNumber::from_parts(true, vec![80]).is_u32(80));
    assert!(!PortNumber::from_parts(false, vec![80, 1]).is_u32(80));
    assert!(PortNumber::from_parts(false, vec![80, 0]).is_u32(80));
}

#[test]
fn port_numbers_are_equal_where_they_are_the_same_integer() {
    assert_eq!(PortNumber::from_u32(0), PortNumber::from_parts(false, vec![]));
    assert_eq!(PortNumber::from_u32(0), PortNumber::from_parts(true, vec![0, 0]));
    assert_eq!(PortNumber::from_u32(80), PortNumber::from_parts(false, vec![80, 0, 0]));
    assert_eq!(normalize_port(text("0"), "http"), Ok(Some(PortNumber::from_u32(0))));
    assert_eq!(normalize_port(text("-0"), "http"), Ok(Some(PortNumber::from_u32(0))));
    assert_eq!(normalize_port(text("0080"), "https"), Ok(Some(PortNumber::from_u32(80))));
    assert_ne!(PortNumber::from_u32(80), PortNumber::from_parts(true, vec![80]));
    assert_ne!(PortNumber::from_u32(80), PortNumber::from_parts(false, vec![80, 1]));
    assert_ne!(PortNumber::from_u32(80), PortNumber::from_u32(81));
}

#[test]
fn port_number_hands_out_its_normal_form() {
    let number = PortNumber::from_parts(true, vec![7, 0, 9, 0, 0]);
    assert!(number.is_negative());
    assert_eq!(number.limbs(), &vec![7, 0, 9]);
    let zero = PortNumber::from_parts(true, vec![0]);
    assert!(!zero.is_negative());
    assert_eq!(zero.limbs(), &Vec::<u32>::new());
    assert_eq!(number.clone(), number);
}
