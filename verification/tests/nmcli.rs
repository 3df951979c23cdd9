use wifi_gui::nmcli::{
    autoconnect_args, connect_saved_args, disconnect_args, forget_args, radio_args, save_password_args,
    command_outcome, connect_args, connect_hidden_args, radio_enabled, saved_wifi_names,
    split_nmcli,
};

fn strs(v: &[String]) -> Vec<&str> {
    v.iter().map(|s| s.as_str()).collect()
}

#[test]
fn split_nmcli_unescapes_colons() {
    assert_eq!(split_nmcli("my\\:net:802-11-wireless", 2), vec!["my:net", "802-11-wireless"]);
    assert_eq!(split_nmcli("a:b:c", 2), vec!["a", "b:c"]);
    assert_eq!(split_nmcli("a:b:c", 3), vec!["a", "b", "c"]);
    assert_eq!(split_nmcli("a:b:c", 10), vec!["a", "b", "c"]);
    assert_eq!(split_nmcli("a:b", 0), vec!["a:b"]);
    assert_eq!(split_nmcli("a:b", 1), vec!["a:b"]);
    assert_eq!(split_nmcli("", 3), vec![""]);
    assert_eq!(split_nmcli(":", 2), vec!["", ""]);
    assert_eq!(split_nmcli("x\\", 2), vec!["x\\"]);
    assert_eq!(split_nmcli("a\\b:c", 2), vec!["a\\b", "c"]);
}

#[test]
fn split_nmcli_reads_back_escaped_fields() {
    let fields = ["home:net", "", "x\\y", "wg0"];
    let line = fields.iter().map(|f| f.replace(':', "\\:")).collect::<Vec<_>>().join(":");
    assert_eq!(split_nmcli(&line, 4), fields);
    assert_eq!(split_nmcli(&line, 9), fields);
}

#[test]
fn split_nmcli_field_count_is_bounded() {
    for line in ["", "a", "a:b:c:d", "::::", "\\:\\:"] {
        for max in 0..6usize {
            let n = split_nmcli(line, max).len();
            assert!(n >= 1 && (n <= max || n == 1), "{:?} {}", line, max);
        }
    }
}

#[test]
fn command_outcome_picks_the_message() {
    let ok = command_outcome(Ok((true, "out\n".to_string(), "warn".to_string())));
    assert_eq!(ok, Ok("out\n".to_string()));
    let err = command_outcome(Ok((false, "out".to_string(), "  Error: no such connection \n".to_string())));
    assert_eq!(err, Err("Error: no such connection".to_string()));
    let fallback = command_outcome(Ok((false, " printed instead \n".to_string(), " \n".to_string())));
    assert_eq!(fallback, Err("printed instead".to_string()));
    let spawn = command_outcome(Err("No such file or directory (os error 2)".to_string()));
    assert_eq!(spawn, Err("nmcli: No such file or directory (os error 2)".to_string()));
}

#[test]
fn radio_state() {
    assert!(radio_enabled(&Ok("enabled\n".to_string())));
    assert!(!radio_enabled(&Ok("disabled\n".to_string())));
    assert!(!radio_enabled(&Ok("Enabled".to_string())));
    assert!(radio_enabled(&Err("nmcli: gone".to_string())));
}

#[test]
fn saved_names_are_wifi_profiles_once_each() {
    let out = "home:802-11-wireless\nWired connection 1:802-3-ethernet\ncafe\\:guest:802-11-wireless\nhome:802-11-wireless\nwg0:wireguard\nodd line\n";
    let names = saved_wifi_names(&Ok(out.to_string()));
    assert_eq!(strs(&names), vec!["home", "cafe:guest"]);
    assert!(saved_wifi_names(&Err("nmcli: gone".to_string())).is_empty());
    assert!(saved_wifi_names(&Ok(String::new())).is_empty());
}

#[test]
fn connect_arguments() {
    assert_eq!(connect_args("home", None), vec!["device", "wifi", "connect", "home"]);
    assert_eq!(
        connect_args("home", Some("s3cret")),
        vec!["device", "wifi", "connect", "home", "password", "s3cret"]
    );
    assert_eq!(
        connect_hidden_args("hid", Some("pw")),
        vec!["device", "wifi", "connect", "hid", "password", "pw", "hidden", "yes"]
    );
    assert_eq!(
        connect_hidden_args("hid", None),
        vec!["device", "wifi", "connect", "hid", "hidden", "yes"]
    );
}

#[test]
fn profile_arguments() {
    assert_eq!(radio_args(true), vec!["radio", "wifi", "on"]);
    assert_eq!(radio_args(false), vec!["radio", "wifi", "off"]);
    assert_eq!(connect_saved_args("home net"), vec!["connection", "up", "id", "home net"]);
    assert_eq!(disconnect_args("home"), vec!["connection", "down", "id", "home"]);
    assert_eq!(forget_args("home"), vec!["connection", "delete", "id", "home"]);
    assert_eq!(
        autoconnect_args("home", false),
        vec!["connection", "modify", "id", "home", "connection.autoconnect", "no"]
    );
    assert_eq!(
        autoconnect_args("home", true),
        vec!["connection", "modify", "id", "home", "connection.autoconnect", "yes"]
    );
    assert_eq!(
        save_password_args("home", "pass word; rm"),
        vec!["connection", "modify", "id", "home", "wifi-sec.psk", "pass word; rm"]
    );
}

#[test]
fn query_arguments() {
    assert_eq!(wifi_gui::nmcli::saved_profiles_args(), vec!["-t", "-f", "NAME,TYPE", "connection", "show"]);
    assert_eq!(
        wifi_gui::nmcli::wifi_list_args(true),
        vec!["-t", "-f", "IN-USE,SSID,SIGNAL,SECURITY", "device", "wifi", "list", "--rescan", "yes"]
    );
    assert_eq!(
        wifi_gui::nmcli::wifi_list_args(false),
        vec!["-t", "-f", "IN-USE,SSID,SIGNAL,SECURITY", "device", "wifi", "list", "--rescan", "no"]
    );
    assert_eq!(wifi_gui::nmcli::radio_state_args(), vec!["radio", "wifi"]);
    assert_eq!(
        wifi_gui::nmcli::profile_secrets_args("home"),
        vec![
            "--show-secrets", "-t", "-f", "connection.autoconnect,802-11-wireless-security.psk",
            "connection", "show", "id", "home",
        ]
    );
    assert_eq!(
        wifi_gui::nmcli::scan_cache_args(),
        vec!["-t", "-f", "SSID,BSSID,CHAN,FREQ,RATE,SECURITY", "device", "wifi", "list"]
    );
    assert_eq!(
        wifi_gui::nmcli::active_ip_args("home"),
        vec!["-t", "-f", "IP4.ADDRESS,IP4.GATEWAY,IP4.DNS", "connection", "show", "--active", "id", "home"]
    );
    assert_eq!(wifi_gui::wireguard::wg_profiles_args(), vec!["-t", "-f", "NAME,TYPE,DEVICE", "connection", "show"]);
    assert_eq!(wifi_gui::wireguard::wg_links_args(), vec!["-o", "link", "show", "type", "wireguard"]);
    assert_eq!(wifi_gui::wireguard::wg_quick_lookup_args(), vec!["wg-quick"]);
}
