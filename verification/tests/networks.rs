use wifi_gui::networks::{parse_networks, Network};

fn row(n: &Network) -> (String, u8, bool, bool, bool) {
    (n.ssid.clone(), n.signal, n.secured, n.in_use, n.known)
}

fn rows(v: &[Network]) -> Vec<(String, u8, bool, bool, bool)> {
    v.iter().map(row).collect()
}

fn t(s: &str, sig: u8, sec: bool, use_: bool, known: bool) -> (String, u8, bool, bool, bool) {
    (s.to_string(), sig, sec, use_, known)
}

#[test]
fn networks_strongest_first_in_use_on_top() {
    let out = " :cafe:40:WPA2\n*:home:55:WPA2 WPA3\n :open:90:\n :lab:90:--\n";
    let saved = vec!["home".to_string(), "lab".to_string()];
    let nets = parse_networks(out, &saved);
    assert_eq!(
        rows(&nets),
        vec![
            t("home", 55, true, true, true),
            t("open", 90, false, false, false),
            t("lab", 90, false, false, true),
            t("cafe", 40, true, false, false),
        ]
    );
}

#[test]
fn duplicates_keep_strongest_signal() {
    let out = " :mesh:30:WPA2\n :mesh:70:WPA2\n :mesh:50:WPA2\n";
    let nets = parse_networks(out, &Vec::new());
    assert_eq!(rows(&nets), vec![t("mesh", 70, true, false, false)]);
}

#[test]
fn in_use_sighting_is_taken_even_when_weaker() {
    let out = " :mesh:80:WPA2\n*:mesh:35:WPA2\n";
    let nets = parse_networks(out, &Vec::new());
    assert_eq!(rows(&nets), vec![t("mesh", 35, true, true, false)]);
}

#[test]
fn stronger_later_sighting_keeps_active_entry() {
    let out = "*:mesh:35:WPA2\n :mesh:80:WPA2\n :mesh:90:WPA2\n";
    let nets = parse_networks(out, &Vec::new());
    assert_eq!(rows(&nets), vec![t("mesh", 35, true, true, false)]);
}

#[test]
fn first_sighting_fixes_security() {
    let out = " :mesh:30:\n :mesh:70:WPA2\n";
    let nets = parse_networks(out, &Vec::new());
    assert_eq!(rows(&nets), vec![t("mesh", 70, false, false, false)]);
}

#[test]
fn lines_without_a_network_are_skipped() {
    let out = "garbage\n :--:50:WPA2\n :   :50:WPA2\n*:x:60\n :ok:abc:WPA2\n :big:300:WPA2\n\n";
    let nets = parse_networks(out, &Vec::new());
    assert_eq!(rows(&nets), vec![t("ok", 0, true, false, false), t("big", 0, true, false, false)]);
}

#[test]
fn ties_keep_scan_order() {
    let out = " :b:50:\n :a:50:\n :c:50:\n";
    let nets = parse_networks(out, &Vec::new());
    let names: Vec<&str> = nets.iter().map(|n| n.ssid.as_str()).collect();
    assert_eq!(names, vec!["b", "a", "c"]);
}

#[test]
fn ssid_is_trimmed_and_fields_after_the_fourth_are_ignored() {
    let out = "*:  home  : 77 : WPA2 :extra:more\n";
    let nets = parse_networks(out, &vec!["home".to_string()]);
    assert_eq!(rows(&nets), vec![t("home", 77, true, true, true)]);
}

#[test]
fn empty_output_lists_nothing() {
    assert!(parse_networks("", &Vec::new()).is_empty());
}

#[test]
fn last_in_use_sighting_decides() {
    let out = " :mesh:90:WPA2\n :other:20:\n*:mesh:40:WPA2\n :other:30:\n";
    let nets = parse_networks(out, &Vec::new());
    assert_eq!(rows(&nets), vec![t("mesh", 40, true, true, false), t("other", 30, false, false, false)]);
}

#[test]
fn active_entry_stays_first_and_marked() {
    let out = " :other:99:\n*:home:20:WPA2\n :home:95:WPA2\n";
    let nets = parse_networks(out, &Vec::new());
    assert_eq!(rows(&nets), vec![t("home", 20, true, true, false), t("other", 99, false, false, false)]);
}
