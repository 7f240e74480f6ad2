use hostsmod::ip::IpAddress;
use hostsmod::opts::{comb_action, Action};
use hostsmod::parse::chars_of_str;

#[test]
fn test_parse_actions() {
    {
        let parsed = comb_action("-somehost").unwrap();
        assert_eq!(Action::Remove("somehost".into()), parsed);
    }
    {
        let parsed = comb_action("127.1.65.77+=somehost").unwrap();
        assert_eq!(
            Action::Define(IpAddress::V4(127, 1, 65, 77), "somehost".into()),
            parsed
        );
    }
    {
        let parsed = comb_action("2003::f+=somehost").unwrap();
        assert_eq!(
            Action::Define(
                IpAddress::V6(0x2003, 0, 0, 0, 0, 0, 0, 0xf),
                "somehost".into()
            ),
            parsed
        );
    }
    {
        let parsed = comb_action("::1=somehost").unwrap();
        assert_eq!(
            Action::DefineExclusive(
                IpAddress::V6(0, 0, 0, 0, 0, 0, 0, 1),
                "somehost".into()
            ),
            parsed
        );
    }
}

#[test]
fn test_parse_action_rejects_trailing_text() {
    assert!(comb_action("-somehost extra").is_none());
    assert!(comb_action("nonsense").is_none());
    assert!(comb_action("300.1.2.3=host").is_none());
}

#[test]
fn test_ip_literal_forms() {
    let parse = |s: &str| hostsmod::ip::parse_ip_address(&chars_of_str(s));
    assert_eq!(parse("127.0.0.1"), Some(IpAddress::V4(127, 0, 0, 1)));
    assert_eq!(parse("0.0.0.0"), Some(IpAddress::V4(0, 0, 0, 0)));
    assert_eq!(parse("255.255.255.255"), Some(IpAddress::V4(255, 255, 255, 255)));
    // Leading zeros, short forms and out-of-range octets are rejected.
    assert_eq!(parse("01.2.3.4"), None);
    assert_eq!(parse("256.1.1.1"), None);
    assert_eq!(parse("1.2.3"), None);
    assert_eq!(parse("1.2.3.4.5"), None);
    // IPv6 forms.
    assert_eq!(parse("::"), Some(IpAddress::V6(0, 0, 0, 0, 0, 0, 0, 0)));
    assert_eq!(parse("::1"), Some(IpAddress::V6(0, 0, 0, 0, 0, 0, 0, 1)));
    assert_eq!(parse("1::"), Some(IpAddress::V6(1, 0, 0, 0, 0, 0, 0, 0)));
    assert_eq!(
        parse("2001:db8::ff00:42:8329"),
        Some(IpAddress::V6(0x2001, 0xdb8, 0, 0, 0, 0xff00, 0x42, 0x8329))
    );
    assert_eq!(
        parse("1:2:3:4:5:6:7:8"),
        Some(IpAddress::V6(1, 2, 3, 4, 5, 6, 7, 8))
    );
    assert_eq!(
        parse("::ffff:1.2.3.4"),
        Some(IpAddress::V6(0, 0, 0, 0, 0, 0xffff, 0x0102, 0x0304))
    );
    assert_eq!(parse(":::"), None);
    assert_eq!(parse("1:2:3:4:5:6:7:8:9"), None);
    assert_eq!(parse("12345::"), None);
}

#[test]
fn test_ip_canonical_rendering() {
    let render = |ip: IpAddress| hostsmod::ip::render_ip_address(&ip);
    assert_eq!(render(IpAddress::V4(203, 0, 113, 5)), "203.0.113.5");
    assert_eq!(render(IpAddress::V6(0, 0, 0, 0, 0, 0, 0, 1)), "::1");
    assert_eq!(render(IpAddress::V6(0, 0, 0, 0, 0, 0, 0, 0)), "::");
    assert_eq!(
        render(IpAddress::V6(0x2001, 0xdb8, 0, 0, 0, 0, 0, 1)),
        "2001:db8::1"
    );
    assert_eq!(render(IpAddress::V6(1, 2, 3, 4, 5, 6, 7, 8)), "1:2:3:4:5:6:7:8");
    // The leftmost of two equally long zero runs is compressed.
    assert_eq!(render(IpAddress::V6(1, 0, 0, 2, 0, 0, 3, 4)), "1::2:0:0:3:4");
    // The IPv4-mapped form.
    assert_eq!(
        render(IpAddress::V6(0, 0, 0, 0, 0, 0xffff, 0x0102, 0x0304)),
        "::ffff:1.2.3.4"
    );
    // Rendering parses back to the same address.
    let ips = [
        IpAddress::V4(10, 0, 20, 4),
        IpAddress::V6(0xff02, 0, 0, 0, 0, 0, 0, 2),
        IpAddress::V6(0, 0, 0, 0, 0, 0xffff, 0xc0a8, 0x0101),
    ];
    for ip in ips.iter() {
        let text = hostsmod::ip::render_ip_address(ip);
        assert_eq!(hostsmod::ip::parse_ip_address(&chars_of_str(&text)), Some(*ip));
    }
}
