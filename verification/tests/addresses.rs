use http_forker::addr::parse_address;
use http_forker::addr::validate_addresses;

#[test]
fn check_valid_ipv4_addresses() {
    let addr = parse_address("127.0.0.1:123").unwrap();
    assert!(addr.is_ipv4());
    assert_eq!(addr.ip_string(), "127.0.0.1");
    assert_eq!(addr.port(), 123);

    let addr = parse_address("1.2.3.4:555").unwrap();
    assert!(addr.is_ipv4());
    assert_eq!(addr.ip_string(), "1.2.3.4");
    assert_eq!(addr.port(), 555);
}

#[test]
fn check_invalid_ipv4_addresses() {
    let _ = parse_address("256.0.0.1:123").unwrap_err();
    let _ = parse_address("127.0.0.1.9:123").unwrap_err();
    let _ = parse_address("127.0.0.1:66666").unwrap_err();
    let _ = parse_address("127.0.0:123").unwrap_err();
    let _ = parse_address("127.0.0.1").unwrap_err();
}

#[test]
fn check_valid_ipv6_addresses() {
    let addr = parse_address("[2345:0425:2CA1:0000:0000:0567:5673:23b5]:1245").unwrap();
    assert!(addr.is_ipv6());
    assert_eq!(
        addr.ip_string().to_uppercase(),
        "2345:425:2CA1::567:5673:23B5"
    );
    assert_eq!(addr.port(), 1245);

    let addr = parse_address("[::1]:2255").unwrap();
    assert!(addr.is_ipv6());
    assert_eq!(addr.ip_string(), "::1");
    assert_eq!(addr.port(), 2255);
}

#[test]
fn check_invalid_ipv6_addresses() {
    let _ = parse_address("256.0.0.1:123").unwrap_err();
    let _ = parse_address("127.0.0.1.9:123").unwrap_err();
    let _ = parse_address("127.0.0.1:66666").unwrap_err();
    let _ = parse_address("127.0.0:123").unwrap_err();
    let _ = parse_address("127.0.0.1").unwrap_err();
}

#[test]
fn port_bounds() {
    assert_eq!(parse_address("9.8.7.6:65535").unwrap().port(), 65535);
    assert_eq!(parse_address("9.8.7.6:0").unwrap().port(), 0);
    // Leading zeros are accepted in a port, but not in an octet.
    assert_eq!(parse_address("9.8.7.6:0080").unwrap().port(), 80);
    let _ = parse_address("9.8.7.6:65536").unwrap_err();
    let _ = parse_address("9.8.7.6:").unwrap_err();
    let _ = parse_address("01.8.7.6:80").unwrap_err();
    let _ = parse_address("0.8.7.6:80").unwrap();
}

#[test]
fn malformed_endpoints() {
    let _ = parse_address("").unwrap_err();
    let _ = parse_address(":80").unwrap_err();
    let _ = parse_address("1.2.3.4").unwrap_err();
    let _ = parse_address("1.2.3:80").unwrap_err();
    let _ = parse_address("1.2.3.4.5:80").unwrap_err();
    let _ = parse_address("1..3.4:80").unwrap_err();
    let _ = parse_address("a.b.c.d:80").unwrap_err();
    let _ = parse_address("example.com:80").unwrap_err();
    let _ = parse_address("1.2.3.4:80x").unwrap_err();
    let _ = parse_address(" 1.2.3.4:80").unwrap_err();
}

#[test]
fn malformed_ipv6_endpoints() {
    let _ = parse_address("::1:2255").unwrap_err();
    let _ = parse_address("[::1]2255").unwrap_err();
    let _ = parse_address("[::1]:").unwrap_err();
    let _ = parse_address("[::1").unwrap_err();
    let _ = parse_address("[1::2::3]:80").unwrap_err();
    let _ = parse_address("[:::1]:80").unwrap_err();
    let _ = parse_address("[1:2:3:4:5:6:7]:80").unwrap_err();
    let _ = parse_address("[1:2:3:4:5:6:7:8:9]:80").unwrap_err();
    let _ = parse_address("[12345::1]:80").unwrap_err();
    let _ = parse_address("[g::1]:80").unwrap_err();
    let _ = parse_address("[::0:0:0:0:0:0:0:1]:80").unwrap_err();
}

#[test]
fn ipv6_parsing_and_rendering() {
    let addr = parse_address("[1:2:3:4:5:6:7:8]:9").unwrap();
    assert!(addr.is_ipv6());
    assert_eq!(addr.ip_string(), "1:2:3:4:5:6:7:8");
    assert_eq!(addr.port(), 9);

    // The leftmost of two equally long zero runs is compressed.
    let addr = parse_address("[1:0:0:2:0:0:0:3]:80").unwrap();
    assert_eq!(addr.ip_string(), "1:0:0:2::3");

    // A single zero group is not compressed.
    let addr = parse_address("[1:0:2:3:4:5:6:7]:80").unwrap();
    assert_eq!(addr.ip_string(), "1:0:2:3:4:5:6:7");

    // The unspecified address.
    let addr = parse_address("[::]:80").unwrap();
    assert_eq!(addr.ip_string(), "::");

    // A trailing run compresses.
    let addr = parse_address("[1:2:3:4:5:6::]:80").unwrap();
    assert_eq!(addr.ip_string(), "1:2:3:4:5:6::");

    // Leading zeros inside a group disappear in the canonical form.
    let addr = parse_address("[0001:0:0:0:0:0:0:00Ff]:80").unwrap();
    assert_eq!(addr.ip_string(), "1::ff");
}

#[test]
fn validate_whole_configuration() {
    let source = String::from("127.0.0.1:8080");
    let destinations = vec![
        String::from("10.0.0.1:80"),
        String::from("[::1]:80"),
        String::from("10.0.0.2:81"),
    ];
    assert!(validate_addresses(&source, &destinations).is_ok());

    // A bad source is reported first.
    let bad_source = String::from("localhost:80");
    let err = validate_addresses(&bad_source, &destinations).unwrap_err();
    assert_eq!(err.address, "localhost:80");

    // The first bad destination is reported.
    let mixed = vec![
        String::from("10.0.0.1:80"),
        String::from("10.0.0.1:99999"),
        String::from("not an address"),
    ];
    let err = validate_addresses(&source, &mixed).unwrap_err();
    assert_eq!(err.address, "10.0.0.1:99999");

    // An empty destination list is fine to validate; the list being non-empty
    // is enforced by the launcher's argument handling.
    let none: Vec<String> = Vec::new();
    assert!(validate_addresses(&source, &none).is_ok());
}

#[test]
fn rendering_then_parsing_round_trip() {
    let texts = [
        "203.0.113.7:65000",
        "[2001:db8::8:800:200c:417a]:443",
        "[::]:1",
        "255.255.255.255:65535",
        "0.0.0.0:0",
    ];
    for text in texts {
        let a = parse_address(text).unwrap();
        let rendered = if a.is_ipv4() {
            format!("{}:{}", a.ip_string(), a.port())
        } else {
            format!("[{}]:{}", a.ip_string(), a.port())
        };
        let b = parse_address(&rendered).unwrap();
        assert_eq!(b.ip_string(), a.ip_string());
        assert_eq!(b.port(), a.port());
        assert_eq!(b.is_ipv4(), a.is_ipv4());
    }
}
