use wifi_gui::text::{
    chars_of, join_with, parse_number, split_lines, split_n, split_words, string_of, trim_chars,
};

fn v(s: &str) -> Vec<char> {
    s.chars().collect()
}

fn s(c: &[char]) -> String {
    c.iter().collect()
}

#[test]
fn chars_and_strings_round_trip() {
    let text = "Wi-Fi ▂▄ café";
    let c = chars_of(text);
    assert_eq!(c, v(text));
    assert_eq!(string_of(&c), text);
}

#[test]
fn lines_match_std() {
    for text in ["", "\n", "a", "a\n", "a\n\n", "a\r\nb", "a\rb\n", "x\r", "\r\n\r\n", "one\ntwo\nthree"] {
        let got: Vec<String> = split_lines(&v(text)).iter().map(|l| s(l)).collect();
        let want: Vec<String> = text.lines().map(|l| l.to_string()).collect();
        assert_eq!(got, want, "lines of {:?}", text);
    }
}

#[test]
fn trim_matches_std() {
    for text in ["", "  ", " a ", "\t\na b\r\n", "\u{3000}x\u{85}", "\u{200B}x\u{200B}", "\u{A0}y\u{2009}"] {
        assert_eq!(s(&trim_chars(&v(text))), text.trim(), "trim of {:?}", text);
    }
}

#[test]
fn words_match_std() {
    for text in ["", "   ", "WPA2 WPA3", "  WPA1  WPA2\t802.1X ", "5180 MHz"] {
        let got: Vec<String> = split_words(&v(text)).iter().map(|w| s(w)).collect();
        let want: Vec<String> = text.split_whitespace().map(|w| w.to_string()).collect();
        assert_eq!(got, want, "words of {:?}", text);
    }
}

#[test]
fn splitn_matches_std() {
    for text in ["", ":", "*:home:80:WPA2", " :a:b:c:d:e:f", "a\\:b:c", "no colon"] {
        for n in [1usize, 2, 3, 5] {
            let got: Vec<String> = split_n(&v(text), n, ':').iter().map(|p| s(p)).collect();
            let want: Vec<String> = text.splitn(n, ':').map(|p| p.to_string()).collect();
            assert_eq!(got, want, "splitn({}) of {:?}", n, text);
        }
    }
}

#[test]
fn numbers_parse_like_std() {
    for text in ["", "+", "-", "0", "+5", "-5", "007", "255", "256", "99x", " 5", "4294967295", "4294967296", "18446744073709551616"] {
        let got8 = parse_number(&v(text), 255).map(|x| x as u8);
        assert_eq!(got8, text.parse::<u8>().ok(), "u8 of {:?}", text);
        let got32 = parse_number(&v(text), u32::MAX);
        assert_eq!(got32, text.parse::<u32>().ok(), "u32 of {:?}", text);
    }
}

#[test]
fn join_puts_separator_between() {
    let ws = vec![v("WPA2"), v("WPA3"), v("802.1X")];
    assert_eq!(s(&join_with(&ws, &v("/"))), "WPA2/WPA3/802.1X");
    assert_eq!(s(&join_with(&vec![v("only")], &v(" · "))), "only");
    assert_eq!(s(&join_with(&Vec::new(), &v("/"))), "");
}
