use wifi_gui::window::{
    connect_status, connecting_status, dialog_title, network_label, parse_networks, scan_report,
    signal_bars, Network, PasswordDialog,
};

fn net(ssid: &str, signal: u8, secured: bool, in_use: bool) -> Network {
    Network { ssid: ssid.to_string(), signal, secured, in_use }
}

#[test]
fn list_skips_the_first_line() {
    let out = "*:skipped:99:WPA2\n :cafe:40:WPA2\n*:home:55:WPA2\n :cafe:60:WPA2\n";
    let nets = parse_networks(out);
    let rows: Vec<(String, u8, bool, bool)> = nets.iter().map(|n| (n.ssid.clone(), n.signal, n.secured, n.in_use)).collect();
    assert_eq!(rows, vec![("home".to_string(), 55, true, true), ("cafe".to_string(), 60, true, false)]);
    assert!(parse_networks("").is_empty());
    assert!(parse_networks("*:only:99:WPA2\n").is_empty());
}

#[test]
fn bars_by_signal() {
    assert_eq!(signal_bars(100), "▂▄▆█");
    assert_eq!(signal_bars(75), "▂▄▆█");
    assert_eq!(signal_bars(74), "▂▄▆░");
    assert_eq!(signal_bars(50), "▂▄▆░");
    assert_eq!(signal_bars(49), "▂▄░░");
    assert_eq!(signal_bars(25), "▂▄░░");
    assert_eq!(signal_bars(24), "▂░░░");
    assert_eq!(signal_bars(0), "▂░░░");
    assert_eq!(signal_bars(101), "▂░░░");
    assert_eq!(signal_bars(255), "▂░░░");
}

#[test]
fn button_labels() {
    assert_eq!(network_label(&net("home", 80, true, true)), "▂▄▆█ home  🔒 ✓");
    assert_eq!(network_label(&net("cafe", 30, false, false)), "▂▄░░ cafe     ");
}

#[test]
fn status_lines() {
    assert_eq!(connecting_status("home"), "Connecting to home…");
    assert_eq!(dialog_title("home"), "Connect to home");
    assert_eq!(connect_status("home", &Ok((true, String::new(), String::new()))), "Connected to home");
    assert_eq!(
        connect_status("home", &Ok((false, "out".to_string(), " Error: Secrets were required \n".to_string()))),
        "Error: Secrets were required"
    );
    assert_eq!(connect_status("home", &Ok((false, " out \n".to_string(), String::new()))), "out");
    assert_eq!(connect_status("home", &Err("boom".to_string())), "nmcli error: boom");
}

#[test]
fn scan_reports() {
    let (nets, status) = scan_report(&Ok((true, "h\n :a:10:\n".to_string(), String::new())));
    assert_eq!(nets.map(|v| v.len()), Some(1));
    assert_eq!(status, "");
    let (nets, status) = scan_report(&Ok((false, "out".to_string(), " Error: radio off \n".to_string())));
    assert!(nets.is_none());
    assert_eq!(status, "Error: radio off");
    let (nets, status) = scan_report(&Err("boom".to_string()));
    assert!(nets.is_none());
    assert_eq!(status, "nmcli error: boom");
}

#[test]
fn password_dialog_flow() {
    let mut d = PasswordDialog::new();
    assert_eq!(d.pick(&net("open", 50, false, false)), Some("open".to_string()));
    assert!(d.connecting_to.is_none());
    assert_eq!(d.pick(&net("home", 50, true, false)), None);
    assert_eq!(d.connecting_to.as_deref(), Some("home"));
    d.password.push_str("s3cret");
    d.show_password = true;
    assert_eq!(d.confirm(), Some(("home".to_string(), "s3cret".to_string())));
    assert!(d.connecting_to.is_none());
    assert!(d.password.is_empty());
    assert_eq!(d.confirm(), None);
    d.pick(&net("home", 50, true, false));
    assert!(!d.show_password);
    d.password.push_str("typo");
    d.dismiss();
    assert!(d.connecting_to.is_none());
    assert!(d.password.is_empty());
}

#[test]
fn window_list_is_backend_list_after_first_line() {
    let out = "*:skipped:99:WPA2\n :cafe:40:WPA2\n*:home:55:WPA2\n :cafe:60:WPA2\n :b:60:\n";
    let rest = &out[out.find('\n').unwrap() + 1..];
    let saved = vec!["home".to_string(), "cafe".to_string()];
    let backend = wifi_gui::networks::parse_networks(rest, &saved);
    let window = parse_networks(out);
    let b: Vec<(String, u8, bool, bool)> = backend.iter().map(|n| (n.ssid.clone(), n.signal, n.secured, n.in_use)).collect();
    let w: Vec<(String, u8, bool, bool)> = window.iter().map(|n| (n.ssid.clone(), n.signal, n.secured, n.in_use)).collect();
    assert_eq!(w, b);
    assert!(backend.iter().any(|n| n.known));
}

#[test]
fn header_then_active_entry_kept() {
    let out = "IN-USE:SSID:SIGNAL:SECURITY\n*:Home:50:WPA2\n :Home:70:WPA2\n";
    let nets = parse_networks(out);
    assert_eq!(nets.len(), 1);
    assert_eq!(nets[0].ssid, "Home");
    assert!(nets[0].in_use);
    assert_eq!(nets[0].signal, 50);
}

#[test]
fn window_list_is_backend_list_of_rejoined_lines() {
    let out = "IN-USE:SSID:SIGNAL:SECURITY\r\n*:Home:50:WPA2\r\n :Home:70:WPA2\r\n :cafe:30:\r\n\n";
    let rest = out.lines().skip(1).collect::<Vec<_>>().join("\n");
    let backend = wifi_gui::networks::parse_networks(&rest, &vec!["Home".to_string()]);
    let window = parse_networks(out);
    let b: Vec<(String, u8, bool, bool)> = backend.iter().map(|n| (n.ssid.clone(), n.signal, n.secured, n.in_use)).collect();
    let w: Vec<(String, u8, bool, bool)> = window.iter().map(|n| (n.ssid.clone(), n.signal, n.secured, n.in_use)).collect();
    assert_eq!(w, b);
    assert_eq!(w, vec![("Home".to_string(), 50, true, true), ("cafe".to_string(), 30, false, false)]);
}
