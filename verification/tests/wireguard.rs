use wifi_gui::wireguard::{
    active_wg_iface, nm_wg_profile, profile_switch_args, wireguard_status, Escalation, RunOutcome,
};

#[test]
fn first_wireguard_profile() {
    let out = "home:802-11-wireless:wlan0\nwork-vpn:wireguard:\nwg-b:wireguard:wg-b\n";
    assert_eq!(nm_wg_profile(&Ok(out.to_string())), Some(("work-vpn".to_string(), false)));
    let active = "home:802-11-wireless:wlan0\nwg\\:x:wireguard:wgx\n";
    assert_eq!(nm_wg_profile(&Ok(active.to_string())), Some(("wg:x".to_string(), true)));
    assert_eq!(nm_wg_profile(&Ok("home:802-11-wireless:wlan0\n".to_string())), None);
    assert_eq!(nm_wg_profile(&Err("nmcli: gone".to_string())), None);
}

#[test]
fn active_interface_from_ip_link() {
    let listing = "9: wg0: <POINTOPOINT,NOARP,UP,LOWER_UP> mtu 1420 qdisc noqueue state UNKNOWN\n";
    assert_eq!(active_wg_iface(listing), Some("wg0".to_string()));
    assert_eq!(active_wg_iface("10: wg1@NONE: <UP> mtu 1420\n"), Some("wg1".to_string()));
    assert_eq!(active_wg_iface("no colon here\n11:  : <UP>\n12: wg2: <UP>\n"), Some("wg2".to_string()));
    assert_eq!(active_wg_iface(""), None);
    assert_eq!(active_wg_iface("13: @x: <UP>\n"), None);
}

#[test]
fn status_prefers_the_nm_profile() {
    let s = wireguard_status(Some(("vpn".to_string(), true)), false, Some("wg9".to_string()), "wg0".to_string());
    assert!(s.installed && s.up);
    assert_eq!(s.interface, "vpn");
    let s = wireguard_status(None, true, Some("wg9".to_string()), "wg0".to_string());
    assert!(s.installed && s.up);
    assert_eq!(s.interface, "wg9");
    let s = wireguard_status(None, false, None, "wg0".to_string());
    assert!(!s.installed && !s.up);
    assert_eq!(s.interface, "wg0");
}

#[test]
fn profile_switch_only_for_the_named_profile() {
    let p = Some(("vpn".to_string(), false));
    assert_eq!(profile_switch_args(true, "vpn", &p), Some(vec!["connection".to_string(), "up".to_string(), "id".to_string(), "vpn".to_string()]));
    assert_eq!(profile_switch_args(false, "vpn", &p), Some(vec!["connection".to_string(), "down".to_string(), "id".to_string(), "vpn".to_string()]));
    assert_eq!(profile_switch_args(true, "wg0", &p), None);
    assert_eq!(profile_switch_args(true, "wg0", &None), None);
}

#[test]
fn escalation_stops_at_first_success() {
    let mut e = Escalation::new(true, "wg0".to_string());
    assert_eq!(e.command(), vec!["doas", "-n", "wg-quick", "up", "wg0"]);
    let r = e.record(RunOutcome::NotStarted { error: "No such file or directory (os error 2)".to_string() });
    assert_eq!(r, None);
    assert_eq!(e.command(), vec!["sudo", "-n", "wg-quick", "up", "wg0"]);
    assert_eq!(e.record(RunOutcome::Succeeded), Some(Ok(())));
    assert_eq!(e.errors, vec!["doas: No such file or directory (os error 2)"]);
}

#[test]
fn escalation_reports_every_failure() {
    let mut e = Escalation::new(false, "wg0".to_string());
    assert_eq!(e.record(RunOutcome::Failed { stderr: " doas: a password is required \n".to_string(), status: "exit status: 1".to_string() }), None);
    assert_eq!(e.record(RunOutcome::Failed { stderr: "  ".to_string(), status: "exit status: 1".to_string() }), None);
    assert_eq!(e.command(), vec!["pkexec", "--disable-internal-agent", "wg-quick", "down", "wg0"]);
    let done = e.record(RunOutcome::Failed { stderr: "".to_string(), status: "exit status: 127".to_string() });
    assert_eq!(
        done,
        Some(Err("doas: a password is required · sudo: exit status: 1 · pkexec: exit status: 127".to_string()))
    );
}
