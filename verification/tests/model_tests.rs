use sysmon::model::{net_fits_check, net_totals, NetIface};

fn iface(name: &str, down: u64, up: u64) -> NetIface {
    NetIface { name: name.to_string(), label: name.to_string(), down_bps: down, up_bps: up }
}

#[test]
fn net_totals_add_up_the_interfaces() {
    let ifaces = vec![iface("eth0", 1_000, 20), iface("wlan0", 5_000, 300)];
    assert!(net_fits_check(&ifaces));
    let net = net_totals(ifaces);
    assert_eq!(net.down_bps, 6_000);
    assert_eq!(net.up_bps, 320);
    assert_eq!(net.ifaces.len(), 2);
    assert_eq!(net.ifaces[1].name, "wlan0");
}

#[test]
fn net_totals_of_no_interfaces_are_zero() {
    let net = net_totals(Vec::new());
    assert_eq!((net.down_bps, net.up_bps), (0, 0));
}

#[test]
fn net_totals_that_overflow_are_refused() {
    let ifaces = vec![iface("a", u64::MAX, 0), iface("b", 1, 0)];
    assert!(!net_fits_check(&ifaces));
    let ifaces = vec![iface("a", 0, u64::MAX), iface("b", 0, 1)];
    assert!(!net_fits_check(&ifaces));
    assert!(net_fits_check(&[iface("a", u64::MAX, u64::MAX)]));
}
