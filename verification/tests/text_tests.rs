use hop_ssh::error::HopError;
use hop_ssh::ports::{parse_port, parse_tunnel_ports, PortsError};
use hop_ssh::text::{contains_text, join, same_text, text_le_exec, u16_to_decimal};

#[test]
fn decimal_rendering() {
    assert_eq!(u16_to_decimal(0), "0");
    assert_eq!(u16_to_decimal(7), "7");
    assert_eq!(u16_to_decimal(22), "22");
    assert_eq!(u16_to_decimal(65535), "65535");
    for n in [0u16, 1, 9, 10, 99, 100, 8080, 40000, 65535] {
        assert_eq!(u16_to_decimal(n), n.to_string());
    }
}

#[test]
fn port_parsing_accepts_what_std_accepts() {
    assert_eq!(parse_port("8080"), Ok(8080));
    assert_eq!(parse_port("0"), Ok(0));
    assert_eq!(parse_port("+80"), Ok(80));
    assert_eq!(parse_port("0008080"), Ok(8080));
    assert_eq!(parse_port("65535"), Ok(65535));
}

#[test]
fn port_parsing_errors() {
    assert_eq!(parse_port(""), Err(PortsError::Empty));
    assert_eq!(parse_port("+"), Err(PortsError::InvalidDigit));
    assert_eq!(parse_port("-"), Err(PortsError::InvalidDigit));
    assert_eq!(parse_port("-1"), Err(PortsError::InvalidDigit));
    assert_eq!(parse_port("12a"), Err(PortsError::InvalidDigit));
    assert_eq!(parse_port(" 1"), Err(PortsError::InvalidDigit));
    assert_eq!(parse_port("65536"), Err(PortsError::TooLarge));
    assert_eq!(parse_port("99999x"), Err(PortsError::TooLarge));
    assert_eq!(parse_port("6553x"), Err(PortsError::InvalidDigit));
}

#[test]
fn port_parsing_agrees_with_std() {
    for s in ["", "+", "-", "0", "+0", "00", "65535", "65536", "100000", "1x", "x1", "+-1", "++1", "٣", "1 ", "70000a", "6553a"] {
        let mine = parse_port(s);
        let std = s.parse::<u16>();
        match (mine, std) {
            (Ok(a), Ok(b)) => assert_eq!(a, b, "{}", s),
            (Err(e), Err(f)) => assert_eq!(e.message(), f.to_string(), "{}", s),
            (m, st) => panic!("{}: {:?} vs {:?}", s, m, st),
        }
    }
}

#[test]
fn port_round_trip() {
    for n in [0u16, 5, 22, 443, 8080, 65535] {
        assert_eq!(parse_port(&u16_to_decimal(n)), Ok(n));
    }
}

#[test]
fn tunnel_ports() {
    assert_eq!(parse_tunnel_ports("8080:3000"), Ok((8080, 3000)));
    assert_eq!(parse_tunnel_ports("8080"), Err(PortsError::BadFormat));
    assert_eq!(parse_tunnel_ports("1:2:3"), Err(PortsError::BadFormat));
    assert_eq!(parse_tunnel_ports(":3000"), Err(PortsError::Empty));
    assert_eq!(parse_tunnel_ports("8080:"), Err(PortsError::Empty));
    assert_eq!(parse_tunnel_ports("a:1"), Err(PortsError::InvalidDigit));
    assert_eq!(parse_tunnel_ports("1:70000"), Err(PortsError::TooLarge));
    assert_eq!(parse_tunnel_ports("x:70000"), Err(PortsError::InvalidDigit));
    assert_eq!(
        PortsError::BadFormat.message(),
        "Port format must be local:remote (e.g. 8080:3000)"
    );
}

#[test]
fn tunnel_round_trip() {
    let s = format!("{}:{}", u16_to_decimal(1), u16_to_decimal(65535));
    assert_eq!(parse_tunnel_ports(&s), Ok((1, 65535)));
}

#[test]
fn substring_search() {
    assert!(contains_text("hello world", "lo w"));
    assert!(contains_text("abc", ""));
    assert!(contains_text("", ""));
    assert!(!contains_text("", "a"));
    assert!(!contains_text("abc", "abcd"));
    assert!(contains_text("abc", "abc"));
    assert!(contains_text("aab", "ab"));
    assert!(!contains_text("abc", "ac"));
    assert!(contains_text("héllo", "él"));
}

#[test]
fn text_order() {
    assert!(text_le_exec("a", "b"));
    assert!(!text_le_exec("b", "a"));
    assert!(text_le_exec("", ""));
    assert!(text_le_exec("ab", "abc"));
    assert!(!text_le_exec("abc", "ab"));
    assert!(text_le_exec("B", "a"));
    assert!(text_le_exec("same", "same"));
}

#[test]
fn text_equality_and_join() {
    assert!(same_text("x", "x"));
    assert!(!same_text("x", "y"));
    let parts = vec!["a".to_string(), "b".to_string(), "c".to_string()];
    assert_eq!(join(&parts, ", "), "a, b, c");
    assert_eq!(join(&vec!["one".to_string()], ", "), "one");
    assert_eq!(join(&Vec::new(), ", "), "");
}

#[test]
fn error_messages() {
    assert_eq!(HopError::HostNotFound("x".to_string()).message(), "Host 'x' not found");
    assert_eq!(HopError::HostExists("x".to_string()).message(), "Host 'x' already exists");
    assert_eq!(HopError::Config("bad".to_string()).message(), "Config error: bad");
    assert_eq!(HopError::Io("denied".to_string()).message(), "IO error: denied");
    assert_eq!(HopError::TomlParse("p".to_string()).message(), "TOML parse error: p");
    assert_eq!(HopError::TomlSerialize("s".to_string()).message(), "TOML serialize error: s");
    assert_eq!(HopError::InvalidPort("z".to_string()).message(), "Invalid port number: z");
    assert_eq!(HopError::SshFailed.message(), "SSH command failed");
}
