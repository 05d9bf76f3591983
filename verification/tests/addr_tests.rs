use netsim::addr::fmt_ipv4;
use netsim::addr::parse_ipv4_bytes;
use netsim::addr::to_ip_addr;
use netsim::addr::to_socket_addr;
use netsim::addr::to_socket_addr_pair;
use netsim::addr::IpAddr;
use netsim::addr::SockAddr;
use netsim::SimError;

#[test]
fn ip_addr_from_str() {
    let ip_ref = IpAddr::v4(127, 0, 0, 1);
    assert_eq!(to_ip_addr("127.0.0.1").unwrap(), ip_ref);
    let owned = String::from("127.0.0.1");
    assert_eq!(to_ip_addr(&owned).unwrap(), ip_ref);
}

#[test]
fn ip_addr_rejects_names() {
    assert!(to_ip_addr("localhost").is_err());
    assert!(to_ip_addr("aba").is_err());
    assert!(to_ip_addr("1.2.3").is_err());
    assert!(to_ip_addr("1.2.3.4.5").is_err());
    assert!(to_ip_addr("1.2.3.256").is_err());
    assert!(to_ip_addr("01.2.3.4").is_err());
    assert!(to_ip_addr("").is_err());
}

#[test]
fn socket_addr_from_str() {
    let port_ref: u16 = 123;
    let addr_ref = SockAddr::new(IpAddr::v4(1, 1, 1, 1), port_ref);

    assert_eq!(to_socket_addr("1.1.1.1:123").unwrap(), addr_ref);
    let owned = String::from("1.1.1.1:123");
    assert_eq!(to_socket_addr(&owned).unwrap(), addr_ref);
    assert_eq!(to_socket_addr_pair("1.1.1.1", 123).unwrap(), addr_ref);
    let host = String::from("1.1.1.1");
    assert_eq!(to_socket_addr_pair(&host, 123).unwrap(), addr_ref);
}

#[test]
fn socket_addr_from_ip_addr() {
    let addr_ref = to_ip_addr("10.13.1.1").unwrap();
    let port_ref: u16 = 12345;
    let got_addr = SockAddr::new(addr_ref, port_ref);
    assert_eq!(addr_ref, got_addr.ip);
    assert_eq!(port_ref, got_addr.port);
}

#[test]
fn dns_not_supported_handled() {
    let result = to_socket_addr("localhost:123");
    let err = result.err().unwrap();
    assert_eq!(err, SimError::InvalidInput);
    assert_eq!(netsim::addr::resolution_error_message(), "DNS is not supported");
}

#[test]
fn ipv4_text_round_trip() {
    let samples: Vec<IpAddr> = vec![
        IpAddr::v4(0, 0, 0, 0),
        IpAddr::v4(1, 2, 3, 4),
        IpAddr::v4(10, 12, 1, 1),
        IpAddr::v4(127, 0, 0, 1),
        IpAddr::v4(198, 162, 0, 2),
        IpAddr::v4(255, 255, 255, 255),
    ];
    for ip in samples {
        let n = match ip {
            IpAddr::V4(n) => n,
            IpAddr::V6(_) => unreachable!(),
        };
        let text = fmt_ipv4(n);
        assert_eq!(parse_ipv4_bytes(&text), Some(n));
    }
    assert_eq!(fmt_ipv4(0x0a0c0101), b"10.12.1.1".to_vec());
}

#[test]
fn ip_classes() {
    assert!(to_ip_addr("127.0.0.1").unwrap().is_loopback());
    assert!(!to_ip_addr("10.0.0.1").unwrap().is_loopback());
    assert!(to_ip_addr("224.255.0.1").unwrap().is_multicast());
    assert!(to_ip_addr("239.0.0.1").unwrap().is_multicast());
    assert!(!to_ip_addr("223.0.0.1").unwrap().is_multicast());
    assert!(to_ip_addr("0.0.0.0").unwrap().is_unspecified());
    assert!(!to_ip_addr("0.0.0.1").unwrap().is_unspecified());
    assert!(IpAddr::V6(1).is_loopback());
    assert!(IpAddr::V6(0).is_unspecified());
    assert!(IpAddr::V6(0xff00_0000_0000_0000_0000_0000_0000_0000).is_multicast());
}

#[test]
fn ip_addr_from_str_v6() {
    assert_eq!(to_ip_addr("::1").unwrap(), IpAddr::V6(1));
    assert_eq!(to_ip_addr("::").unwrap(), IpAddr::V6(0));
    assert_eq!(
        to_ip_addr("2001:0db8:85a3:0000:0000:8a2e:0370:7334").unwrap(),
        IpAddr::V6(0x2001_0db8_85a3_0000_0000_8a2e_0370_7334),
    );
    assert_eq!(to_ip_addr("1:2:3:4:5:6:7:8").unwrap(), IpAddr::V6(0x0001_0002_0003_0004_0005_0006_0007_0008));
    assert_eq!(to_ip_addr("ff00::").unwrap(), IpAddr::V6(0xff00_0000_0000_0000_0000_0000_0000_0000));
    assert_eq!(to_ip_addr("fe80::1").unwrap(), IpAddr::V6(0xfe80_0000_0000_0000_0000_0000_0000_0001));
    assert_eq!(to_ip_addr("1:2:3:4:5:6:7::").unwrap(), IpAddr::V6(0x0001_0002_0003_0004_0005_0006_0007_0000));
}

#[test]
fn ip_addr_rejects_bad_v6() {
    assert!(to_ip_addr(":::").is_err());
    assert!(to_ip_addr("1::2::3").is_err());
    assert!(to_ip_addr("1:2:3:4:5:6:7").is_err());
    assert!(to_ip_addr("1:2:3:4:5:6:7:8:9").is_err());
    assert!(to_ip_addr("1:2:3:4:5:6:7:8::").is_err());
    assert!(to_ip_addr("12345::").is_err());
    assert!(to_ip_addr("g::1").is_err());
    assert!(to_ip_addr("1:2:").is_err());
    assert!(to_ip_addr(":1:2").is_err());
}

#[test]
fn node_builder_accepts_v6() {
    let ip = to_ip_addr("fe80::1").unwrap();
    assert!(!ip.is_loopback());
    assert!(!ip.is_multicast());
    assert!(!ip.is_unspecified());
}

#[test]
fn from_socket_addr_v6() {
    let got = to_socket_addr("[::1]:8080").unwrap();
    assert_eq!(got, SockAddr::new(IpAddr::V6(1), 8080));
    let got = to_socket_addr("[2001:db8::1]:443").unwrap();
    assert_eq!(
        got,
        SockAddr::new(IpAddr::V6(0x2001_0db8_0000_0000_0000_0000_0000_0001), 443),
    );
    assert!(to_socket_addr("[::1]").is_err());
    assert!(to_socket_addr("[::1]:").is_err());
    assert!(to_socket_addr("[abc]:80").is_err());
    assert!(to_socket_addr("[::1:80").is_err());
}

#[test]
fn ipv6_text_round_trip() {
    let samples: Vec<u128> = vec![
        0,
        1,
        0x2001_0db8_85a3_0000_0000_8a2e_0370_7334,
        0xff00_0000_0000_0000_0000_0000_0000_0000,
        u128::MAX,
    ];
    for v in samples {
        let text = netsim::addr6::fmt_ipv6(v);
        let back = to_ip_addr(std::str::from_utf8(&text).unwrap()).unwrap();
        assert_eq!(back, IpAddr::V6(v));
    }
    assert_eq!(netsim::addr6::fmt_ipv6(1), b"0:0:0:0:0:0:0:1".to_vec());
}
