use wireguardex::iface::InterfaceName;
use wireguardex::ip::{AllowedIp, Endpoint, IpAddress};
use wireguardex::WgError;

#[test]
fn allowed_ip_parse_v4() {
    let a = AllowedIp::parse("10.0.0.2/32").unwrap();
    assert_eq!(a.address, IpAddress::V4(10, 0, 0, 2));
    assert_eq!(a.cidr, 32);
}

#[test]
fn allowed_ip_round_trip_v4() {
    let a = AllowedIp {
        address: IpAddress::V4(192, 168, 1, 0),
        cidr: 24,
    };
    let text = a.format();
    assert_eq!(text, "192.168.1.0/24");
    assert_eq!(AllowedIp::parse(&text).unwrap(), a);
}

#[test]
fn allowed_ip_round_trip_v6() {
    let a = AllowedIp {
        address: IpAddress::V6(0xff02, 0, 0, 0, 1, 2, 0xabcd, 8),
        cidr: 128,
    };
    let text = a.format();
    assert_eq!(text, "ff02:0:0:0:1:2:abcd:8/128");
    assert_eq!(AllowedIp::parse(&text).unwrap(), a);
}

#[test]
fn allowed_ip_parse_v6_compressed() {
    let a = AllowedIp::parse("::/0").unwrap();
    assert_eq!(a.address, IpAddress::V6(0, 0, 0, 0, 0, 0, 0, 0));
    assert_eq!(a.cidr, 0);

    let b = AllowedIp::parse("fe80::1/64").unwrap();
    assert_eq!(b.address, IpAddress::V6(0xfe80, 0, 0, 0, 0, 0, 0, 1));
    assert_eq!(b.cidr, 64);

    let c = AllowedIp::parse("::1/128").unwrap();
    assert_eq!(c.address, IpAddress::V6(0, 0, 0, 0, 0, 0, 0, 1));

    let d = AllowedIp::parse("1:2:3:4:5:6:7::/8").unwrap();
    assert_eq!(d.address, IpAddress::V6(1, 2, 3, 4, 5, 6, 7, 0));

    let e = AllowedIp::parse("::1:2:3:4:5:6:7/8").unwrap();
    assert_eq!(e.address, IpAddress::V6(0, 1, 2, 3, 4, 5, 6, 7));
}

#[test]
fn allowed_ip_parse_v6_case_and_zeros() {
    let a = AllowedIp::parse("FE80::1/64").unwrap();
    assert_eq!(a.address, IpAddress::V6(0xfe80, 0, 0, 0, 0, 0, 0, 1));

    let b = AllowedIp::parse("fe80:0:0:0:0000:0:0:1/64").unwrap();
    assert_eq!(b.address, IpAddress::V6(0xfe80, 0, 0, 0, 0, 0, 0, 1));

    let c = AllowedIp::parse("00ff:0:0:0:0:0:0:00Ab/32").unwrap();
    assert_eq!(c.address, IpAddress::V6(0xff, 0, 0, 0, 0, 0, 0, 0xab));
}

#[test]
fn allowed_ip_rejects_malformed_v6() {
    for bad in [
        "1::2::3/8",
        "1:::2/8",
        ":::/8",
        "12345::/8",
        "1:2:3:4:5:6:7:8::/8",
        "::1:2:3:4:5:6:7:8/8",
        ":1:2:3:4:5:6:7/8",
        "1:2:3:4:5:6:7:/8",
        "::ffff:1.2.3.4/96",
        "fe80::1/129",
        "::/",
    ] {
        assert_eq!(AllowedIp::parse(bad), Err(WgError::InvalidCidr), "{bad}");
    }
}

#[test]
fn allowed_ip_rejects_malformed() {
    for bad in [
        "10.0.0.2",
        "10.0.0.2/",
        "/24",
        "10.0.0/24",
        "10.0.0.2.1/24",
        "10.0.0.256/8",
        "10.0.0.2/33",
        "01.0.0.1/8",
        "1.2.3.4/08",
        "1:2:3:4:5:6:7/64",
        "1:2:3:4:5:6:7:8/129",
        "g:2:3:4:5:6:7:8/64",
        "1:2:3:4:5:6:7:8/64/1",
        "",
    ] {
        assert_eq!(AllowedIp::parse(bad), Err(WgError::InvalidCidr), "{bad}");
    }
}

#[test]
fn endpoint_round_trip_v4() {
    let e = Endpoint {
        address: IpAddress::V4(192, 168, 1, 1),
        port: 51820,
    };
    let text = e.format();
    assert_eq!(text, "192.168.1.1:51820");
    assert_eq!(Endpoint::parse(&text).unwrap(), e);
}

#[test]
fn endpoint_round_trip_v6() {
    let e = Endpoint {
        address: IpAddress::V6(0xfe80, 0, 0, 0, 0, 0, 0, 1),
        port: 443,
    };
    let text = e.format();
    assert_eq!(text, "[fe80:0:0:0:0:0:0:1]:443");
    assert_eq!(Endpoint::parse(&text).unwrap(), e);
}

#[test]
fn endpoint_parse_v6_compressed() {
    let e = Endpoint::parse("[::1]:51820").unwrap();
    assert_eq!(e.address, IpAddress::V6(0, 0, 0, 0, 0, 0, 0, 1));
    assert_eq!(e.port, 51820);

    let f = Endpoint::parse("[FE80::0001]:80").unwrap();
    assert_eq!(f.address, IpAddress::V6(0xfe80, 0, 0, 0, 0, 0, 0, 1));
    assert_eq!(f.port, 80);
}

#[test]
fn endpoint_rejects_malformed() {
    for bad in [
        "10.0.0.1",
        "10.0.0.1:",
        ":80",
        "10.0.0.1:99999",
        "10.0.0.1:080",
        "[fe80:0:0:0:0:0:0:1]443",
        "[fe80:0:0:0:0:0:0:1:443",
        "fe80:0:0:0:0:0:0:1:443",
        "",
    ] {
        assert_eq!(Endpoint::parse(bad), Err(WgError::InvalidEndpoint), "{bad}");
    }
}

#[test]
fn interface_name_accepts_valid() {
    for good in ["wg0", "wg-test", "a", "fifteen-chars-x"] {
        let n = InterfaceName::from_text(good).unwrap();
        assert_eq!(n.as_text(), good);
    }
}

#[test]
fn interface_name_counts_bytes_not_chars() {
    // Four characters, five bytes: fine.
    let n = InterfaceName::from_text("wg\u{e9}0").unwrap();
    assert_eq!(n.as_text(), "wg\u{e9}0");
    // Eight two-byte characters: sixteen bytes, over the limit.
    assert_eq!(
        InterfaceName::from_text("\u{e9}\u{e9}\u{e9}\u{e9}\u{e9}\u{e9}\u{e9}\u{e9}").err(),
        Some(WgError::InvalidInterfaceName)
    );
}

#[test]
fn interface_name_rejects_invalid() {
    for bad in [
        "",
        "interfacelongname",
        "sixteen-chars-xy",
        "if name",
        "ifna/me",
        "if\tname",
        "if\0name",
    ] {
        assert_eq!(
            InterfaceName::from_text(bad).err(),
            Some(WgError::InvalidInterfaceName),
            "{bad}"
        );
    }
}

#[test]
fn allowed_ip_round_trip_many() {
    let addresses = [
        IpAddress::V4(0, 0, 0, 0),
        IpAddress::V4(255, 255, 255, 255),
        IpAddress::V4(1, 22, 133, 244),
        IpAddress::V6(0, 0, 0, 0, 0, 0, 0, 0),
        IpAddress::V6(0xffff, 0xffff, 0xffff, 0xffff, 0xffff, 0xffff, 0xffff, 0xffff),
        IpAddress::V6(1, 0x23, 0x456, 0x789a, 0xbcd, 0xef0, 10, 0x100),
    ];
    for address in addresses {
        let max = match address {
            IpAddress::V4(..) => 32,
            IpAddress::V6(..) => 128,
        };
        for cidr in [0u8, 1, max / 2, max] {
            let a = AllowedIp { address, cidr };
            assert_eq!(AllowedIp::parse(&a.format()).unwrap(), a);
        }
    }
}

#[test]
fn endpoint_round_trip_many() {
    for port in [0u16, 1, 80, 51820, 65535] {
        let e4 = Endpoint {
            address: IpAddress::V4(10, 0, 0, 1),
            port,
        };
        assert_eq!(Endpoint::parse(&e4.format()).unwrap(), e4);
        let e6 = Endpoint {
            address: IpAddress::V6(0x2001, 0xdb8, 0, 0, 0, 0, 0, 1),
            port,
        };
        assert_eq!(Endpoint::parse(&e6.format()).unwrap(), e6);
    }
}

#[test]
fn error_messages_differ_per_kind() {
    assert_eq!(WgError::NotFound.message(), "not found");
    assert_eq!(WgError::InvalidKeyFormat.message(), "invalid key format");
    assert_ne!(WgError::InvalidCidr.message(), WgError::Backend.message());
}
