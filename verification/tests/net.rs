use ink_md::net::host_is_private;
use ink_md::net::{is_private_ip, IpAddress};

#[test]
fn private_ips_detected() {
    let private = [
        IpAddress::V4(127, 0, 0, 1),
        IpAddress::V4(10, 0, 0, 5),
        IpAddress::V4(172, 16, 1, 1),
        IpAddress::V4(192, 168, 1, 1),
        IpAddress::V4(169, 254, 169, 254),
        IpAddress::V4(0, 0, 0, 0),
        IpAddress::V4(100, 64, 0, 1),
        IpAddress::V6(0, 0, 0, 0, 0, 0, 0, 1),
        IpAddress::V6(0xfc00, 0, 0, 0, 0, 0, 0, 1),
        IpAddress::V6(0xfe80, 0, 0, 0, 0, 0, 0, 1),
        IpAddress::V6(0, 0, 0, 0, 0, 0xffff, 0x7f00, 1),
    ];
    for ip in private {
        assert!(is_private_ip(&ip), "{ip:?} should be private");
    }
}

#[test]
fn public_ips_pass() {
    for ip in [
        IpAddress::V4(1, 1, 1, 1),
        IpAddress::V4(93, 184, 216, 34),
        IpAddress::V6(0x2606, 0x4700, 0, 0, 0, 0, 0, 0x1111),
        IpAddress::V4(172, 32, 0, 1),
        IpAddress::V4(100, 128, 0, 1),
    ] {
        assert!(!is_private_ip(&ip), "{ip:?} should be public");
    }
}

#[test]
fn hosts_are_judged_by_literal_or_resolution() {
    assert!(host_is_private(Some(IpAddress::V4(127, 0, 0, 1)), None));
    assert!(!host_is_private(Some(IpAddress::V4(1, 1, 1, 1)), None));
    // Unresolvable names are blocked, so are names resolving to nothing.
    assert!(host_is_private(None, None));
    assert!(host_is_private(None, Some(vec![])));
    assert!(!host_is_private(None, Some(vec![IpAddress::V4(93, 184, 216, 34)])));
    assert!(host_is_private(None, Some(vec![IpAddress::V4(93, 184, 216, 34), IpAddress::V4(10, 0, 0, 1)])));
}
