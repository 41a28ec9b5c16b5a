use r2::veth::disable_ipv6;

#[test]
fn disable_ipv6_names_the_interface() {
    assert_eq!(disable_ipv6("r2_eth1"), "net.ipv6.conf.r2_eth1.disable_ipv6=1");
    assert_eq!(disable_ipv6("r2_eth2"), "net.ipv6.conf.r2_eth2.disable_ipv6=1");
    assert_eq!(disable_ipv6(""), "net.ipv6.conf..disable_ipv6=1");
}
