use wifi_gui::info::{fetch_info, InfoState};

fn ok(s: &str) -> Result<String, String> {
    Ok(s.to_string())
}

fn err() -> Result<String, String> {
    Err("Error: no such connection profile.".to_string())
}

fn fields(i: &InfoState) -> Vec<String> {
    vec![
        i.ssid.clone(),
        i.password.clone(),
        i.bssid.clone(),
        i.channel.clone(),
        i.band.clone(),
        i.rate.clone(),
        i.security.clone(),
        i.ip4_address.clone(),
        i.ip4_gateway.clone(),
        i.ip4_dns.clone(),
    ]
}

#[test]
fn full_details_of_the_network_in_use() {
    let profile = ok("connection.autoconnect:yes\n802-11-wireless-security.psk:hunter2\n");
    let scan = ok("other:AA\\:BB\\:CC\\:DD\\:EE\\:01:1:2412 MHz:54 Mbit/s:WPA2\nhome:AA\\:BB\\:CC\\:DD\\:EE\\:FF:36:5180 MHz:270 Mbit/s:WPA2 WPA3\nhome:11\\:22\\:33\\:44\\:55\\:66:1:2412 MHz:54 Mbit/s:WPA2\n");
    let active = Some(ok("IP4.ADDRESS[1]:192.168.1.20/24\nIP4.ADDRESS[2]:10.0.0.2/8\nIP4.GATEWAY:--\nIP4.GATEWAY:192.168.1.1\nIP4.DNS[1]:192.168.1.1\nIP4.DNS[2]:8.8.8.8\n"));
    let info = fetch_info("home", true, &profile, &scan, &active);
    assert!(info.has_profile);
    assert_eq!(info.autoconnect, Some(true));
    assert_eq!(
        fields(&info),
        vec![
            "home",
            "hunter2",
            "AA:BB:CC:DD:EE:FF",
            "36",
            "5 GHz",
            "270 Mbit/s",
            "WPA2/WPA3",
            "192.168.1.20/24",
            "192.168.1.1",
            "192.168.1.1",
        ]
    );
}

#[test]
fn autoconnect_is_off_only_for_no() {
    let a = fetch_info("x", false, &ok("connection.autoconnect:no\n"), &err(), &None);
    assert_eq!(a.autoconnect, Some(false));
    let b = fetch_info("x", false, &ok("connection.autoconnect:-1\n"), &err(), &None);
    assert_eq!(b.autoconnect, Some(true));
    let c = fetch_info("x", false, &ok(""), &err(), &None);
    assert!(c.has_profile);
    assert_eq!(c.autoconnect, None);
}

#[test]
fn missing_profile_and_blank_psk() {
    let none = fetch_info("x", false, &err(), &err(), &None);
    assert!(!none.has_profile);
    assert_eq!(none.autoconnect, None);
    assert_eq!(none.password, "");
    let blank = fetch_info("x", false, &ok("802-11-wireless-security.psk:--\n"), &err(), &None);
    assert_eq!(blank.password, "");
}

#[test]
fn bands_by_frequency() {
    let cases = [
        ("2412 MHz", "2.4 GHz"),
        ("4899 MHz", "2.4 GHz"),
        ("4900 MHz", "5 GHz"),
        ("5924", "5 GHz"),
        ("5925 MHz", "6 GHz"),
        ("6115 MHz", "6 GHz"),
        ("1 MHz", "2.4 GHz"),
        ("0 MHz", ""),
        ("--", ""),
        ("", ""),
    ];
    for (freq, band) in cases {
        let line = format!("net:--:--:{}:--:--\n", freq);
        let info = fetch_info("net", false, &err(), &ok(&line), &None);
        assert_eq!(info.band, band, "{:?}", freq);
        assert_eq!(info.bssid, "");
        assert_eq!(info.channel, "");
        assert_eq!(info.rate, "");
        assert_eq!(info.security, "");
    }
}

#[test]
fn no_ip_details_when_not_in_use() {
    let active = Some(ok("IP4.ADDRESS[1]:192.168.1.20/24\n"));
    let info = fetch_info("home", false, &err(), &err(), &active);
    assert_eq!(info.ip4_address, "");
    let used = fetch_info("home", true, &err(), &err(), &active);
    assert_eq!(used.ip4_address, "192.168.1.20/24");
}

#[test]
fn scan_lines_with_few_fields_are_skipped() {
    let scan = ok("home:AA\nhome:BB:6:2437 MHz:54 Mbit/s:WPA1  WPA2\n");
    let info = fetch_info("home", false, &err(), &scan, &None);
    assert_eq!(info.bssid, "BB");
    assert_eq!(info.channel, "6");
    assert_eq!(info.band, "2.4 GHz");
    assert_eq!(info.security, "WPA1/WPA2");
}
