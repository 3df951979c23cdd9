//! The details shown for one network: its saved profile, what the last scan
//! saw of it, and, while connected, its IPv4 settings.
use vstd::prelude::*;

use crate::nmcli::{nmcli_fields, result_view, split_fields};
use crate::text::{
    chars_of, has_prefix, is_text, join, join_with, lines, parse_number, parse_unsigned,
    same_chars, split_lines, split_words, starts_with_text, string_of, texts, trim, trim_chars,
    words,
};

verus! {

/// What is known of one network.
pub struct InfoState {
    pub ssid: String,
    pub has_profile: bool,
    pub password: String,
    pub autoconnect: Option<bool>,
    pub bssid: String,
    pub channel: String,
    pub band: String,
    pub rate: String,
    pub security: String,
    pub ip4_address: String,
    pub ip4_gateway: String,
    pub ip4_dns: String,
}

/// The mathematical value of an [`InfoState`].
pub struct InfoView {
    pub ssid: Seq<char>,
    pub has_profile: bool,
    pub password: Seq<char>,
    pub autoconnect: Option<bool>,
    pub bssid: Seq<char>,
    pub channel: Seq<char>,
    pub band: Seq<char>,
    pub rate: Seq<char>,
    pub security: Seq<char>,
    pub ip4_address: Seq<char>,
    pub ip4_gateway: Seq<char>,
    pub ip4_dns: Seq<char>,
}

impl View for InfoState {
    type V = InfoView;

    open spec fn view(&self) -> InfoView {
        InfoView {
            ssid: self.ssid@,
            has_profile: self.has_profile,
            password: self.password@,
            autoconnect: self.autoconnect,
            bssid: self.bssid@,
            channel: self.channel@,
            band: self.band@,
            rate: self.rate@,
            security: self.security@,
            ip4_address: self.ip4_address@,
            ip4_gateway: self.ip4_gateway@,
            ip4_dns: self.ip4_dns@,
        }
    }
}

/// Nothing known yet of the network `ssid`.
pub open spec fn blank_info(ssid: Seq<char>) -> InfoView {
    InfoView {
        ssid: ssid,
        has_profile: false,
        password: seq![],
        autoconnect: None,
        bssid: seq![],
        channel: seq![],
        band: seq![],
        rate: seq![],
        security: seq![],
        ip4_address: seq![],
        ip4_gateway: seq![],
        ip4_dns: seq![],
    }
}

/// Whether a value is a real one: neither empty nor `--`.
pub open spec fn is_value(v: Seq<char>) -> bool {
    v.len() > 0 && v != "--"@
}

/// A line of `nmcli --show-secrets -t -f
/// connection.autoconnect,802-11-wireless-security.psk connection show id SSID`
/// applied to `v`: the autoconnect setting is on unless it reads `no` (`-1`
/// is the default, which is on); a PSK that is a real value is the password.
pub open spec fn profile_line(line: Seq<char>, v: InfoView) -> InfoView {
    let p = nmcli_fields(line, 2);
    if p.len() < 2 {
        v
    } else if p[0] == "connection.autoconnect"@ {
        InfoView { autoconnect: Some(p[1] != "no"@), ..v }
    } else if p[0] == "802-11-wireless-security.psk"@ {
        if is_value(trim(p[1])) {
            InfoView { password: trim(p[1]), ..v }
        } else {
            v
        }
    } else {
        v
    }
}

/// The profile lines `ls` applied to `v` in order.
pub open spec fn profile_from(ls: Seq<Seq<char>>, v: InfoView) -> InfoView
    decreases ls.len(),
{
    if ls.len() == 0 {
        v
    } else {
        profile_from(ls.drop_first(), profile_line(ls[0], v))
    }
}

/// The saved profile's settings applied to `v`; a profile exists exactly
/// when `nmcli` could show it.
pub open spec fn with_profile(out: Result<Seq<char>, Seq<char>>, v: InfoView) -> InfoView {
    match out {
        Ok(o) => profile_from(lines(o), InfoView { has_profile: true, ..v }),
        Err(_) => v,
    }
}

/// The frequency in MHz that a `FREQ` field such as `5180 MHz` gives: its
/// first word as a number, or 0.
pub open spec fn mhz_of(freq: Seq<char>) -> nat {
    let w = words(freq);
    if w.len() > 0 {
        match parse_unsigned(w[0], 0xffff_ffff) {
            Some(m) => m,
            None => 0,
        }
    } else {
        0
    }
}

/// The band of a frequency: 6 GHz from 5925 MHz up, 5 GHz from 4900 MHz up,
/// 2.4 GHz below that, and none for 0.
pub open spec fn band_of(mhz: nat) -> Seq<char> {
    if mhz >= 5925 {
        "6 GHz"@
    } else if mhz >= 4900 {
        "5 GHz"@
    } else if mhz > 0 {
        "2.4 GHz"@
    } else {
        seq![]
    }
}

/// Whether a line of `nmcli -t -f SSID,BSSID,CHAN,FREQ,RATE,SECURITY device
/// wifi list` is about the network `ssid`.
pub open spec fn scan_line_for(line: Seq<char>, ssid: Seq<char>) -> bool {
    let p = nmcli_fields(line, 6);
    p.len() >= 6 && trim(p[0]) == ssid
}

/// What such a line says, applied to `v`: real values of BSSID, channel and
/// rate; the band of its frequency; the words of a real security value
/// joined with `/`.
pub open spec fn scan_line(line: Seq<char>, v: InfoView) -> InfoView {
    let p = nmcli_fields(line, 6);
    let bssid = trim(p[1]);
    let chan = trim(p[2]);
    let rate = trim(p[4]);
    let sec = trim(p[5]);
    InfoView {
        bssid: if is_value(bssid) { bssid } else { v.bssid },
        channel: if is_value(chan) { chan } else { v.channel },
        band: band_of(mhz_of(trim(p[3]))),
        rate: if is_value(rate) { rate } else { v.rate },
        security: if is_value(sec) { join(words(sec), seq!['/']) } else { v.security },
        ..v
    }
}

/// The first scan line about `ssid`, applied to `v`.
pub open spec fn scan_from(ls: Seq<Seq<char>>, ssid: Seq<char>, v: InfoView) -> InfoView
    decreases ls.len(),
{
    if ls.len() == 0 {
        v
    } else if scan_line_for(ls[0], ssid) {
        scan_line(ls[0], v)
    } else {
        scan_from(ls.drop_first(), ssid, v)
    }
}

/// What the scan cache says of `v`'s network applied to `v`.
pub open spec fn with_scan(out: Result<Seq<char>, Seq<char>>, v: InfoView) -> InfoView {
    match out {
        Ok(o) => scan_from(lines(o), v.ssid, v),
        Err(_) => v,
    }
}

/// A line of `nmcli -t -f IP4.ADDRESS,IP4.GATEWAY,IP4.DNS connection show
/// --active id SSID` applied to `v` (field names may carry an index suffix,
/// as in `IP4.ADDRESS[1]`): the first address, the last gateway and the first
/// DNS server that are real values.
pub open spec fn ip_line(line: Seq<char>, v: InfoView) -> InfoView {
    let p = nmcli_fields(line, 2);
    if p.len() < 2 {
        v
    } else {
        let field = p[0];
        let val = trim(p[1]);
        if !is_value(val) {
            v
        } else if has_prefix(field, "IP4.ADDRESS"@) && v.ip4_address.len() == 0 {
            InfoView { ip4_address: val, ..v }
        } else if has_prefix(field, "IP4.GATEWAY"@) {
            InfoView { ip4_gateway: val, ..v }
        } else if has_prefix(field, "IP4.DNS"@) && v.ip4_dns.len() == 0 {
            InfoView { ip4_dns: val, ..v }
        } else {
            v
        }
    }
}

/// The IPv4 lines `ls` applied to `v` in order.
pub open spec fn ip_from(ls: Seq<Seq<char>>, v: InfoView) -> InfoView
    decreases ls.len(),
{
    if ls.len() == 0 {
        v
    } else {
        ip_from(ls.drop_first(), ip_line(ls[0], v))
    }
}

/// The active connection's IPv4 settings applied to `v`, only while the
/// network is in use.
pub open spec fn with_ip(
    in_use: bool,
    out: Option<Result<Seq<char>, Seq<char>>>,
    v: InfoView,
) -> InfoView {
    if in_use {
        match out {
            Some(Ok(o)) => ip_from(lines(o), v),
            _ => v,
        }
    } else {
        v
    }
}

/// Everything known of the network `ssid`, from the three `nmcli` outputs in
/// turn.
pub open spec fn info_of(
    ssid: Seq<char>,
    in_use: bool,
    profile: Result<Seq<char>, Seq<char>>,
    scan: Result<Seq<char>, Seq<char>>,
    active: Option<Result<Seq<char>, Seq<char>>>,
) -> InfoView {
    with_ip(in_use, active, with_scan(scan, with_profile(profile, blank_info(ssid))))
}

} // verus!

verus! {

fn value_chars(v: &Vec<char>) -> (r: bool)
    ensures
        r == is_value(v@),
{
    v.len() > 0 && !is_text(v, "--")
}

fn read_profile_line(line: &Vec<char>, info: &mut InfoState)
    ensures
        final(info)@ == profile_line(line@, old(info)@),
{
    let p = split_fields(line, 2);
    if p.len() < 2 {
        return;
    }
    assert(texts(p@)[0] == p@[0]@);
    assert(texts(p@)[1] == p@[1]@);
    if is_text(&p[0], "connection.autoconnect") {
        info.autoconnect = Some(!is_text(&p[1], "no"));
    } else if is_text(&p[0], "802-11-wireless-security.psk") {
        let w = trim_chars(&p[1]);
        if value_chars(&w) {
            info.password = string_of(&w);
        }
    }
}

fn read_lines(out: &String) -> (ls: Vec<Vec<char>>)
    ensures
        texts(ls@) == lines(out@),
{
    split_lines(&chars_of(out.as_str()))
}

fn read_profile(out: &Result<String, String>, info: &mut InfoState)
    ensures
        final(info)@ == with_profile(result_view(*out), old(info)@),
{
    if let Ok(o) = out {
        info.has_profile = true;
        let ls = read_lines(o);
        let ghost start = info@;
        let n = ls.len();
        assert(texts(ls@).skip(0) =~= texts(ls@));
        for i in 0..n
            invariant
                n == ls.len(),
                profile_from(texts(ls@), start) == profile_from(texts(ls@).skip(i as int), info@),
        {
            assert(texts(ls@).skip(i as int).drop_first() =~= texts(ls@).skip(i + 1));
            assert(texts(ls@).skip(i as int)[0] == ls@[i as int]@);
            read_profile_line(&ls[i], info);
        }
        assert(texts(ls@).skip(n as int) =~= Seq::<Seq<char>>::empty());
    }
}

fn frequency_mhz(freq: &Vec<char>) -> (m: u32)
    ensures
        m as nat == mhz_of(freq@),
{
    let w = split_words(freq);
    if w.len() > 0 {
        assert(texts(w@)[0] == w@[0]@);
        match parse_number(&w[0], 0xffff_ffff) {
            Some(m) => m,
            None => 0,
        }
    } else {
        0
    }
}

fn band_name(mhz: u32) -> (b: String)
    ensures
        b@ == band_of(mhz as nat),
{
    if mhz >= 5925 {
        String::from_str("6 GHz")
    } else if mhz >= 4900 {
        String::from_str("5 GHz")
    } else if mhz > 0 {
        String::from_str("2.4 GHz")
    } else {
        String::new()
    }
}

fn read_scan_line(line: &Vec<char>, ssid: &Vec<char>, info: &mut InfoState) -> (found: bool)
    ensures
        found == scan_line_for(line@, ssid@),
        found ==> final(info)@ == scan_line(line@, old(info)@),
        !found ==> final(info)@ == old(info)@,
{
    let p = split_fields(line, 6);
    if p.len() < 6 {
        return false;
    }
    assert(texts(p@)[0] == p@[0]@);
    if !same_chars(&trim_chars(&p[0]), ssid) {
        return false;
    }
    assert(texts(p@)[1] == p@[1]@);
    assert(texts(p@)[2] == p@[2]@);
    assert(texts(p@)[3] == p@[3]@);
    assert(texts(p@)[4] == p@[4]@);
    assert(texts(p@)[5] == p@[5]@);
    let bssid = trim_chars(&p[1]);
    let chan = trim_chars(&p[2]);
    let freq = trim_chars(&p[3]);
    let rate = trim_chars(&p[4]);
    let sec = trim_chars(&p[5]);
    if value_chars(&bssid) {
        info.bssid = string_of(&bssid);
    }
    if value_chars(&chan) {
        info.channel = string_of(&chan);
    }
    info.band = band_name(frequency_mhz(&freq));
    if value_chars(&rate) {
        info.rate = string_of(&rate);
    }
    if value_chars(&sec) {
        let mut slash: Vec<char> = Vec::new();
        slash.push('/');
        assert(slash@ =~= seq!['/']);
        info.security = string_of(&join_with(&split_words(&sec), &slash));
    }
    true
}

fn read_scan(out: &Result<String, String>, info: &mut InfoState)
    ensures
        final(info)@ == with_scan(result_view(*out), old(info)@),
{
    if let Ok(o) = out {
        let ls = read_lines(o);
        let ssid = chars_of(info.ssid.as_str());
        let ghost start = info@;
        let n = ls.len();
        assert(texts(ls@).skip(0) =~= texts(ls@));
        let mut i: usize = 0;
        while i < n
            invariant
                n == ls.len(),
                i <= n,
                ssid@ == start.ssid,
                info@ == start,
                start == old(info)@,
                texts(ls@) == lines(o@),
                result_view(*out) == Ok::<Seq<char>, Seq<char>>(o@),
                scan_from(texts(ls@), start.ssid, start) == scan_from(
                    texts(ls@).skip(i as int),
                    start.ssid,
                    start,
                ),
            decreases n - i,
        {
            assert(texts(ls@).skip(i as int).drop_first() =~= texts(ls@).skip(i + 1));
            assert(texts(ls@).skip(i as int)[0] == ls@[i as int]@);
            if read_scan_line(&ls[i], &ssid, info) {
                assert(scan_from(texts(ls@).skip(i as int), start.ssid, start) == scan_line(
                    ls@[i as int]@,
                    start,
                ));
                return;
            }
            i = i + 1;
        }
        assert(texts(ls@).skip(n as int) =~= Seq::<Seq<char>>::empty());
    }
}

fn read_ip_line(line: &Vec<char>, info: &mut InfoState)
    ensures
        final(info)@ == ip_line(line@, old(info)@),
{
    let p = split_fields(line, 2);
    if p.len() < 2 {
        return;
    }
    assert(texts(p@)[0] == p@[0]@);
    assert(texts(p@)[1] == p@[1]@);
    let val = trim_chars(&p[1]);
    if !value_chars(&val) {
        return;
    }
    let field = &p[0];
    if starts_with_text(field, "IP4.ADDRESS") && info.ip4_address.as_str().unicode_len() == 0 {
        info.ip4_address = string_of(&val);
    } else if starts_with_text(field, "IP4.GATEWAY") {
        info.ip4_gateway = string_of(&val);
    } else if starts_with_text(field, "IP4.DNS") && info.ip4_dns.as_str().unicode_len() == 0 {
        info.ip4_dns = string_of(&val);
    }
}

/// The view of the active connection's output, where it was asked for.
pub open spec fn active_view(out: Option<Result<String, String>>) -> Option<
    Result<Seq<char>, Seq<char>>,
> {
    match out {
        Some(r) => Some(result_view(r)),
        None => None,
    }
}

fn read_ip(in_use: bool, out: &Option<Result<String, String>>, info: &mut InfoState)
    ensures
        final(info)@ == with_ip(
            in_use,
            active_view(*out),
            old(info)@,
        ),
{
    if !in_use {
        return;
    }
    if let Some(Ok(o)) = out {
        let ls = read_lines(o);
        let ghost start = info@;
        let n = ls.len();
        assert(texts(ls@).skip(0) =~= texts(ls@));
        for i in 0..n
            invariant
                n == ls.len(),
                ip_from(texts(ls@), start) == ip_from(texts(ls@).skip(i as int), info@),
        {
            assert(texts(ls@).skip(i as int).drop_first() =~= texts(ls@).skip(i + 1));
            assert(texts(ls@).skip(i as int)[0] == ls@[i as int]@);
            read_ip_line(&ls[i], info);
        }
        assert(texts(ls@).skip(n as int) =~= Seq::<Seq<char>>::empty());
    }
}

/// Everything known of the network `ssid`, from the output of the saved
/// profile (`profile`), of the scan cache (`scan`) and, while the network is
/// in use, of the active connection (`active`, which is not read otherwise).
pub fn fetch_info(
    ssid: &str,
    in_use: bool,
    profile: &Result<String, String>,
    scan: &Result<String, String>,
    active: &Option<Result<String, String>>,
) -> (info: InfoState)
    ensures
        info@ == info_of(
            ssid@,
            in_use,
            result_view(*profile),
            result_view(*scan),
            active_view(*active),
        ),
        info.ssid@ == ssid@,
        info.has_profile == profile is Ok,
        !in_use ==> info.ip4_address@.len() == 0 && info.ip4_gateway@.len() == 0
            && info.ip4_dns@.len() == 0,
{
    proof {
        lemma_info_identity(
            ssid@,
            in_use,
            result_view(*profile),
            result_view(*scan),
            active_view(*active),
        );
    }
    let mut info = InfoState {
        ssid: String::from_str(ssid),
        has_profile: false,
        password: String::new(),
        autoconnect: None,
        bssid: String::new(),
        channel: String::new(),
        band: String::new(),
        rate: String::new(),
        security: String::new(),
        ip4_address: String::new(),
        ip4_gateway: String::new(),
        ip4_dns: String::new(),
    };
    read_profile(profile, &mut info);
    read_scan(scan, &mut info);
    read_ip(in_use, active, &mut info);
    info
}

} // verus!

verus! {

/// Whether `w` has the SSID, profile flag and IPv4 settings of `v`.
pub open spec fn same_identity(v: InfoView, w: InfoView) -> bool {
    &&& w.ssid == v.ssid
    &&& w.has_profile == v.has_profile
    &&& w.ip4_address == v.ip4_address
    &&& w.ip4_gateway == v.ip4_gateway
    &&& w.ip4_dns == v.ip4_dns
}

proof fn lemma_profile_keeps(ls: Seq<Seq<char>>, v: InfoView)
    ensures
        same_identity(v, profile_from(ls, v)),
    decreases ls.len(),
{
    if ls.len() > 0 {
        lemma_profile_keeps(ls.drop_first(), profile_line(ls[0], v));
    }
}

proof fn lemma_scan_keeps(ls: Seq<Seq<char>>, ssid: Seq<char>, v: InfoView)
    ensures
        same_identity(v, scan_from(ls, ssid, v)),
    decreases ls.len(),
{
    if ls.len() > 0 && !scan_line_for(ls[0], ssid) {
        lemma_scan_keeps(ls.drop_first(), ssid, v);
    }
}

proof fn lemma_ip_keeps(ls: Seq<Seq<char>>, v: InfoView)
    ensures
        ip_from(ls, v).ssid == v.ssid,
        ip_from(ls, v).has_profile == v.has_profile,
    decreases ls.len(),
{
    if ls.len() > 0 {
        lemma_ip_keeps(ls.drop_first(), ip_line(ls[0], v));
    }
}

/// The details are always about the network asked for; a saved profile is
/// reported exactly when `nmcli` could show it; and IPv4 settings are only
/// ever filled in for the network in use.
pub proof fn lemma_info_identity(
    ssid: Seq<char>,
    in_use: bool,
    profile: Result<Seq<char>, Seq<char>>,
    scan: Result<Seq<char>, Seq<char>>,
    active: Option<Result<Seq<char>, Seq<char>>>,
)
    ensures
        info_of(ssid, in_use, profile, scan, active).ssid == ssid,
        info_of(ssid, in_use, profile, scan, active).has_profile == profile is Ok,
        !in_use ==> info_of(ssid, in_use, profile, scan, active).ip4_address.len() == 0
            && info_of(ssid, in_use, profile, scan, active).ip4_gateway.len() == 0 && info_of(
            ssid,
            in_use,
            profile,
            scan,
            active,
        ).ip4_dns.len() == 0,
{
    let v0 = blank_info(ssid);
    let v1 = with_profile(profile, v0);
    if let Ok(o) = profile {
        lemma_profile_keeps(lines(o), InfoView { has_profile: true, ..v0 });
    }
    let v2 = with_scan(scan, v1);
    if let Ok(o) = scan {
        lemma_scan_keeps(lines(o), v1.ssid, v1);
    }
    if in_use {
        if let Some(Ok(o)) = active {
            lemma_ip_keeps(lines(o), v2);
        }
    }
}

} // verus!

verus! {

/// Whether `line`, a line of `nmcli -t -f SSID,BSSID,CHAN,FREQ,RATE,SECURITY
/// device wifi list`, has all six fields and a first field that, trimmed, is
/// exactly `ssid`.
pub open spec fn line_about(line: Seq<char>, ssid: Seq<char>) -> bool {
    let p = nmcli_fields(line, 6);
    p.len() >= 6 && trim(p[0]) == ssid
}

/// Whether `w` has the scan-cache details of `v`.
pub open spec fn same_scan_details(v: InfoView, w: InfoView) -> bool {
    &&& w.bssid == v.bssid
    &&& w.channel == v.channel
    &&& w.band == v.band
    &&& w.rate == v.rate
    &&& w.security == v.security
}

proof fn lemma_profile_keeps_details(ls: Seq<Seq<char>>, v: InfoView)
    ensures
        same_scan_details(v, profile_from(ls, v)),
    decreases ls.len(),
{
    if ls.len() > 0 {
        lemma_profile_keeps_details(ls.drop_first(), profile_line(ls[0], v));
    }
}

proof fn lemma_ip_keeps_details(ls: Seq<Seq<char>>, v: InfoView)
    ensures
        same_scan_details(v, ip_from(ls, v)),
    decreases ls.len(),
{
    if ls.len() > 0 {
        lemma_ip_keeps_details(ls.drop_first(), ip_line(ls[0], v));
    }
}

proof fn lemma_scan_without_match(ls: Seq<Seq<char>>, ssid: Seq<char>, v: InfoView)
    requires
        forall|i: int| 0 <= i < ls.len() ==> !line_about(#[trigger] ls[i], ssid),
    ensures
        scan_from(ls, ssid, v) == v,
    decreases ls.len(),
{
    if ls.len() > 0 {
        assert(!line_about(ls[0], ssid));
        let rest = ls.drop_first();
        assert forall|i: int| 0 <= i < rest.len() implies !line_about(#[trigger] rest[i], ssid) by {
            assert(rest[i] == ls[i + 1]);
        }
        lemma_scan_without_match(rest, ssid, v);
    }
}

proof fn lemma_scan_first_match(ls: Seq<Seq<char>>, ssid: Seq<char>, v: InfoView, i: int)
    requires
        0 <= i < ls.len(),
        line_about(ls[i], ssid),
        forall|j: int| 0 <= j < i ==> !line_about(#[trigger] ls[j], ssid),
    ensures
        scan_from(ls, ssid, v) == scan_line(ls[i], v),
    decreases ls.len(),
{
    if i > 0 {
        assert(!line_about(ls[0], ssid));
        let rest = ls.drop_first();
        assert(rest[i - 1] == ls[i]);
        assert forall|j: int| 0 <= j < i - 1 implies !line_about(#[trigger] rest[j], ssid) by {
            assert(rest[j] == ls[j + 1]);
        }
        lemma_scan_first_match(rest, ssid, v, i - 1);
    }
}

/// The scan-cache details come only from a line about the network asked
/// for: where no line of the scan cache has a first field that, trimmed, is
/// exactly the SSID (or the cache could not be read), the BSSID, channel,
/// band, rate and security stay empty.
pub proof fn lemma_no_details_without_own_line(
    ssid: Seq<char>,
    in_use: bool,
    profile: Result<Seq<char>, Seq<char>>,
    scan: Result<Seq<char>, Seq<char>>,
    active: Option<Result<Seq<char>, Seq<char>>>,
)
    requires
        scan matches Ok(o) ==> forall|i: int|
            0 <= i < lines(o).len() ==> !line_about(#[trigger] lines(o)[i], ssid),
    ensures
        ({
            let info = info_of(ssid, in_use, profile, scan, active);
            &&& info.bssid.len() == 0
            &&& info.channel.len() == 0
            &&& info.band.len() == 0
            &&& info.rate.len() == 0
            &&& info.security.len() == 0
        }),
{
    let v0 = blank_info(ssid);
    let v1 = with_profile(profile, v0);
    if let Ok(o) = profile {
        lemma_profile_keeps_details(lines(o), InfoView { has_profile: true, ..v0 });
        lemma_profile_keeps(lines(o), InfoView { has_profile: true, ..v0 });
    }
    let v2 = with_scan(scan, v1);
    if let Ok(o) = scan {
        lemma_scan_without_match(lines(o), v1.ssid, v1);
    }
    if in_use {
        if let Some(Ok(o)) = active {
            lemma_ip_keeps_details(lines(o), v2);
        }
    }
}

/// The scan-cache details come from the first line about the network asked
/// for: its BSSID, channel and rate where they are real values, the band of
/// its frequency, and its security words joined with `/`.
pub proof fn lemma_details_from_first_own_line(
    ssid: Seq<char>,
    in_use: bool,
    profile: Result<Seq<char>, Seq<char>>,
    o: Seq<char>,
    active: Option<Result<Seq<char>, Seq<char>>>,
    i: int,
)
    requires
        0 <= i < lines(o).len(),
        line_about(lines(o)[i], ssid),
        forall|j: int| 0 <= j < i ==> !line_about(#[trigger] lines(o)[j], ssid),
    ensures
        ({
            let info = info_of(ssid, in_use, profile, Ok(o), active);
            let p = nmcli_fields(lines(o)[i], 6);
            &&& info.bssid == (if is_value(trim(p[1])) { trim(p[1]) } else { seq![] })
            &&& info.channel == (if is_value(trim(p[2])) { trim(p[2]) } else { seq![] })
            &&& info.band == band_of(mhz_of(trim(p[3])))
            &&& info.rate == (if is_value(trim(p[4])) { trim(p[4]) } else { seq![] })
            &&& info.security == (if is_value(trim(p[5])) {
                join(words(trim(p[5])), seq!['/'])
            } else {
                seq![]
            })
        }),
{
    let v0 = blank_info(ssid);
    let v1 = with_profile(profile, v0);
    if let Ok(po) = profile {
        lemma_profile_keeps_details(lines(po), InfoView { has_profile: true, ..v0 });
        lemma_profile_keeps(lines(po), InfoView { has_profile: true, ..v0 });
    }
    lemma_scan_first_match(lines(o), v1.ssid, v1, i);
    let v2 = with_scan(Ok(o), v1);
    if in_use {
        if let Some(Ok(a)) = active {
            lemma_ip_keeps_details(lines(a), v2);
        }
    }
}

} // verus!

verus! {

/// Whether a profile line sets `key`: it has two fields and the first is
/// exactly `key`.
pub open spec fn sets(line: Seq<char>, key: Seq<char>) -> bool {
    let p = nmcli_fields(line, 2);
    p.len() >= 2 && p[0] == key
}

/// Whether a profile line gives a real PSK.
pub open spec fn gives_psk(line: Seq<char>) -> bool {
    sets(line, "802-11-wireless-security.psk"@) && is_value(trim(nmcli_fields(line, 2)[1]))
}

proof fn lemma_profile_autoconnect_kept(ls: Seq<Seq<char>>, v: InfoView)
    requires
        forall|j: int| 0 <= j < ls.len() ==> !sets(#[trigger] ls[j], "connection.autoconnect"@),
    ensures
        profile_from(ls, v).autoconnect == v.autoconnect,
    decreases ls.len(),
{
    if ls.len() > 0 {
        assert(!sets(ls[0], "connection.autoconnect"@));
        let rest = ls.drop_first();
        assert forall|j: int| 0 <= j < rest.len() implies !sets(#[trigger] rest[j], "connection.autoconnect"@) by {
            assert(rest[j] == ls[j + 1]);
        }
        lemma_profile_autoconnect_kept(rest, profile_line(ls[0], v));
    }
}

proof fn lemma_profile_last_autoconnect(ls: Seq<Seq<char>>, v: InfoView, i: int)
    requires
        0 <= i < ls.len(),
        sets(ls[i], "connection.autoconnect"@),
        forall|j: int| i < j < ls.len() ==> !sets(#[trigger] ls[j], "connection.autoconnect"@),
    ensures
        profile_from(ls, v).autoconnect == Some(nmcli_fields(ls[i], 2)[1] != "no"@),
    decreases ls.len(),
{
    let rest = ls.drop_first();
    if i == 0 {
        assert forall|j: int| 0 <= j < rest.len() implies !sets(#[trigger] rest[j], "connection.autoconnect"@) by {
            assert(rest[j] == ls[j + 1]);
        }
        lemma_profile_autoconnect_kept(rest, profile_line(ls[0], v));
    } else {
        assert(rest[i - 1] == ls[i]);
        assert forall|j: int| i - 1 < j < rest.len() implies !sets(#[trigger] rest[j], "connection.autoconnect"@) by {
            assert(rest[j] == ls[j + 1]);
        }
        lemma_profile_last_autoconnect(rest, profile_line(ls[0], v), i - 1);
    }
}

proof fn lemma_profile_password_kept(ls: Seq<Seq<char>>, v: InfoView)
    requires
        forall|j: int| 0 <= j < ls.len() ==> !gives_psk(#[trigger] ls[j]),
    ensures
        profile_from(ls, v).password == v.password,
    decreases ls.len(),
{
    if ls.len() > 0 {
        assert(!gives_psk(ls[0]));
        let rest = ls.drop_first();
        assert forall|j: int| 0 <= j < rest.len() implies !gives_psk(#[trigger] rest[j]) by {
            assert(rest[j] == ls[j + 1]);
        }
        lemma_profile_password_kept(rest, profile_line(ls[0], v));
    }
}

proof fn lemma_profile_last_password(ls: Seq<Seq<char>>, v: InfoView, i: int)
    requires
        0 <= i < ls.len(),
        gives_psk(ls[i]),
        forall|j: int| i < j < ls.len() ==> !gives_psk(#[trigger] ls[j]),
    ensures
        profile_from(ls, v).password == trim(nmcli_fields(ls[i], 2)[1]),
    decreases ls.len(),
{
    let rest = ls.drop_first();
    if i == 0 {
        reveal_strlit("connection.autoconnect");
        reveal_strlit("802-11-wireless-security.psk");
        assert("connection.autoconnect"@ != "802-11-wireless-security.psk"@) by {
            assert("connection.autoconnect"@[0] != "802-11-wireless-security.psk"@[0]);
        }
        assert forall|j: int| 0 <= j < rest.len() implies !gives_psk(#[trigger] rest[j]) by {
            assert(rest[j] == ls[j + 1]);
        }
        lemma_profile_password_kept(rest, profile_line(ls[0], v));
    } else {
        assert(rest[i - 1] == ls[i]);
        assert forall|j: int| i - 1 < j < rest.len() implies !gives_psk(#[trigger] rest[j]) by {
            assert(rest[j] == ls[j + 1]);
        }
        lemma_profile_last_password(rest, profile_line(ls[0], v), i - 1);
    }
}

proof fn lemma_scan_keeps_settings(ls: Seq<Seq<char>>, ssid: Seq<char>, v: InfoView)
    ensures
        scan_from(ls, ssid, v).autoconnect == v.autoconnect,
        scan_from(ls, ssid, v).password == v.password,
    decreases ls.len(),
{
    if ls.len() > 0 && !scan_line_for(ls[0], ssid) {
        lemma_scan_keeps_settings(ls.drop_first(), ssid, v);
    }
}

proof fn lemma_ip_keeps_settings(ls: Seq<Seq<char>>, v: InfoView)
    ensures
        ip_from(ls, v).autoconnect == v.autoconnect,
        ip_from(ls, v).password == v.password,
    decreases ls.len(),
{
    if ls.len() > 0 {
        lemma_ip_keeps_settings(ls.drop_first(), ip_line(ls[0], v));
    }
}

/// The settings read from a saved profile: autoconnect is the setting of the
/// last `connection.autoconnect` line, off exactly when it reads `no`, and
/// unknown where there is none; the password is the trimmed value of the
/// last PSK line with a real value, and empty where there is none.
pub proof fn lemma_profile_settings(
    ssid: Seq<char>,
    in_use: bool,
    o: Seq<char>,
    scan: Result<Seq<char>, Seq<char>>,
    active: Option<Result<Seq<char>, Seq<char>>>,
)
    ensures
        ({
            let ls = lines(o);
            let info = info_of(ssid, in_use, Ok(o), scan, active);
            &&& (forall|j: int| 0 <= j < ls.len() ==> !sets(#[trigger] ls[j], "connection.autoconnect"@))
                ==> info.autoconnect is None
            &&& forall|i: int|
                0 <= i < ls.len() && sets(#[trigger] ls[i], "connection.autoconnect"@) && (forall|j: int|
                    i < j < ls.len() ==> !sets(#[trigger] ls[j], "connection.autoconnect"@))
                    ==> info.autoconnect == Some(nmcli_fields(ls[i], 2)[1] != "no"@)
            &&& (forall|j: int| 0 <= j < ls.len() ==> !gives_psk(#[trigger] ls[j])) ==> info.password.len()
                == 0
            &&& forall|i: int|
                0 <= i < ls.len() && gives_psk(#[trigger] ls[i]) && (forall|j: int|
                    i < j < ls.len() ==> !gives_psk(#[trigger] ls[j])) ==> info.password == trim(
                    nmcli_fields(ls[i], 2)[1],
                )
        }),
{
    let ls = lines(o);
    let v0 = InfoView { has_profile: true, ..blank_info(ssid) };
    let v1 = profile_from(ls, v0);
    lemma_profile_keeps(ls, v0);
    let v2 = with_scan(scan, v1);
    if let Ok(so) = scan {
        lemma_scan_keeps_settings(lines(so), v1.ssid, v1);
    }
    if in_use {
        if let Some(Ok(a)) = active {
            lemma_ip_keeps_settings(lines(a), v2);
        }
    }
    if forall|j: int| 0 <= j < ls.len() ==> !sets(#[trigger] ls[j], "connection.autoconnect"@) {
        lemma_profile_autoconnect_kept(ls, v0);
    }
    assert forall|i: int|
        0 <= i < ls.len() && sets(#[trigger] ls[i], "connection.autoconnect"@) && (forall|j: int|
            i < j < ls.len() ==> !sets(#[trigger] ls[j], "connection.autoconnect"@)) implies v1.autoconnect
        == Some(nmcli_fields(ls[i], 2)[1] != "no"@) by {
        lemma_profile_last_autoconnect(ls, v0, i);
    }
    if forall|j: int| 0 <= j < ls.len() ==> !gives_psk(#[trigger] ls[j]) {
        lemma_profile_password_kept(ls, v0);
    }
    assert forall|i: int|
        0 <= i < ls.len() && gives_psk(#[trigger] ls[i]) && (forall|j: int|
            i < j < ls.len() ==> !gives_psk(#[trigger] ls[j])) implies v1.password == trim(
        nmcli_fields(ls[i], 2)[1],
    ) by {
        lemma_profile_last_password(ls, v0, i);
    }
}

} // verus!

verus! {

/// Whether an IPv4 line has a field name starting with `prefix` and a real
/// value.
pub open spec fn ip_value_line(line: Seq<char>, prefix: Seq<char>) -> bool {
    let p = nmcli_fields(line, 2);
    p.len() >= 2 && has_prefix(p[0], prefix) && is_value(trim(p[1]))
}

/// The trimmed value of an IPv4 line.
pub open spec fn ip_value(line: Seq<char>) -> Seq<char> {
    trim(nmcli_fields(line, 2)[1])
}

proof fn lemma_ip_prefixes_differ(f: Seq<char>)
    ensures
        has_prefix(f, "IP4.ADDRESS"@) ==> !has_prefix(f, "IP4.GATEWAY"@) && !has_prefix(f, "IP4.DNS"@),
        has_prefix(f, "IP4.GATEWAY"@) ==> !has_prefix(f, "IP4.DNS"@),
{
    reveal_strlit("IP4.ADDRESS");
    reveal_strlit("IP4.GATEWAY");
    reveal_strlit("IP4.DNS");
    if has_prefix(f, "IP4.ADDRESS"@) {
        assert(f[4] == 'A') by {
            assert(f.take(11)[4] == "IP4.ADDRESS"@[4]);
        }
        if has_prefix(f, "IP4.GATEWAY"@) {
            assert(f.take(11)[4] == "IP4.GATEWAY"@[4]);
        }
        if has_prefix(f, "IP4.DNS"@) {
            assert(f.take(7)[4] == "IP4.DNS"@[4]);
        }
    }
    if has_prefix(f, "IP4.GATEWAY"@) && has_prefix(f, "IP4.DNS"@) {
        assert(f.take(11)[4] == "IP4.GATEWAY"@[4]);
        assert(f.take(7)[4] == "IP4.DNS"@[4]);
    }
}

/// What an IPv4 line does to the three settings.
proof fn lemma_ip_line_effect(line: Seq<char>, v: InfoView)
    ensures
        ({
            let w = ip_line(line, v);
            &&& w.ip4_address == (if ip_value_line(line, "IP4.ADDRESS"@) && v.ip4_address.len() == 0 {
                ip_value(line)
            } else {
                v.ip4_address
            })
            &&& w.ip4_gateway == (if ip_value_line(line, "IP4.GATEWAY"@) {
                ip_value(line)
            } else {
                v.ip4_gateway
            })
            &&& w.ip4_dns == (if ip_value_line(line, "IP4.DNS"@) && v.ip4_dns.len() == 0 {
                ip_value(line)
            } else {
                v.ip4_dns
            })
        }),
{
    let p = nmcli_fields(line, 2);
    if p.len() >= 2 {
        lemma_ip_prefixes_differ(p[0]);
    }
}

/// Which of the three settings `first` and `last` line select.
pub open spec fn ip_setting(v: InfoView, which: nat) -> Seq<char> {
    if which == 0 {
        v.ip4_address
    } else if which == 1 {
        v.ip4_gateway
    } else {
        v.ip4_dns
    }
}

pub open spec fn ip_prefix(which: nat) -> Seq<char> {
    if which == 0 {
        "IP4.ADDRESS"@
    } else if which == 1 {
        "IP4.GATEWAY"@
    } else {
        "IP4.DNS"@
    }
}

proof fn lemma_ip_setting_kept(ls: Seq<Seq<char>>, v: InfoView, which: nat)
    requires
        which <= 2,
        forall|j: int| 0 <= j < ls.len() ==> !ip_value_line(#[trigger] ls[j], ip_prefix(which))
            || (which != 1 && ip_setting(v, which).len() > 0),
    ensures
        ip_setting(ip_from(ls, v), which) == ip_setting(v, which),
    decreases ls.len(),
{
    if ls.len() > 0 {
        lemma_ip_line_effect(ls[0], v);
        let w = ip_line(ls[0], v);
        let rest = ls.drop_first();
        assert forall|j: int| 0 <= j < rest.len() implies !ip_value_line(#[trigger] rest[j], ip_prefix(which))
            || (which != 1 && ip_setting(w, which).len() > 0) by {
            assert(rest[j] == ls[j + 1]);
        }
        lemma_ip_setting_kept(rest, w, which);
    }
}

proof fn lemma_ip_first(ls: Seq<Seq<char>>, v: InfoView, which: nat, i: int)
    requires
        which == 0 || which == 2,
        ip_setting(v, which).len() == 0,
        0 <= i < ls.len(),
        ip_value_line(ls[i], ip_prefix(which)),
        forall|j: int| 0 <= j < i ==> !ip_value_line(#[trigger] ls[j], ip_prefix(which)),
    ensures
        ip_setting(ip_from(ls, v), which) == ip_value(ls[i]),
    decreases ls.len(),
{
    lemma_ip_line_effect(ls[0], v);
    let w = ip_line(ls[0], v);
    let rest = ls.drop_first();
    if i == 0 {
        assert(ip_setting(w, which) == ip_value(ls[0]));
        assert(is_value(ip_value(ls[0])));
        assert forall|j: int| 0 <= j < rest.len() implies !ip_value_line(#[trigger] rest[j], ip_prefix(which))
            || (which != 1 && ip_setting(w, which).len() > 0) by {}
        lemma_ip_setting_kept(rest, w, which);
    } else {
        assert(rest[i - 1] == ls[i]);
        assert forall|j: int| 0 <= j < i - 1 implies !ip_value_line(#[trigger] rest[j], ip_prefix(which)) by {
            assert(rest[j] == ls[j + 1]);
        }
        lemma_ip_first(rest, w, which, i - 1);
    }
}

proof fn lemma_ip_last(ls: Seq<Seq<char>>, v: InfoView, i: int)
    requires
        0 <= i < ls.len(),
        ip_value_line(ls[i], "IP4.GATEWAY"@),
        forall|j: int| i < j < ls.len() ==> !ip_value_line(#[trigger] ls[j], "IP4.GATEWAY"@),
    ensures
        ip_from(ls, v).ip4_gateway == ip_value(ls[i]),
    decreases ls.len(),
{
    lemma_ip_line_effect(ls[0], v);
    let w = ip_line(ls[0], v);
    let rest = ls.drop_first();
    if i == 0 {
        assert forall|j: int| 0 <= j < rest.len() implies !ip_value_line(#[trigger] rest[j], ip_prefix(1))
            || (1 != 1 && ip_setting(w, 1).len() > 0) by {
            assert(rest[j] == ls[j + 1]);
        }
        lemma_ip_setting_kept(rest, w, 1);
    } else {
        assert(rest[i - 1] == ls[i]);
        assert forall|j: int| i - 1 < j < rest.len() implies !ip_value_line(#[trigger] rest[j], "IP4.GATEWAY"@) by {
            assert(rest[j] == ls[j + 1]);
        }
        lemma_ip_last(rest, w, i - 1);
    }
}

/// The IPv4 settings of the network in use: the address and DNS server of
/// the first line with a real value for them, the gateway of the last such
/// line; a setting no line gives a real value stays empty.
pub proof fn lemma_ip_settings(
    ssid: Seq<char>,
    profile: Result<Seq<char>, Seq<char>>,
    scan: Result<Seq<char>, Seq<char>>,
    a: Seq<char>,
    which: nat,
)
    requires
        which <= 2,
    ensures
        ({
            let ls = lines(a);
            let info = info_of(ssid, true, profile, scan, Some(Ok(a)));
            &&& (forall|j: int| 0 <= j < ls.len() ==> !ip_value_line(#[trigger] ls[j], ip_prefix(which)))
                ==> ip_setting(info, which).len() == 0
            &&& which != 1 ==> forall|i: int|
                0 <= i < ls.len() && ip_value_line(#[trigger] ls[i], ip_prefix(which)) && (forall|j: int|
                    0 <= j < i ==> !ip_value_line(#[trigger] ls[j], ip_prefix(which))) ==> ip_setting(
                    info,
                    which,
                ) == ip_value(ls[i])
            &&& which == 1 ==> forall|i: int|
                0 <= i < ls.len() && ip_value_line(#[trigger] ls[i], ip_prefix(which)) && (forall|j: int|
                    i < j < ls.len() ==> !ip_value_line(#[trigger] ls[j], ip_prefix(which)))
                    ==> ip_setting(info, which) == ip_value(ls[i])
        }),
{
    let ls = lines(a);
    let v0 = blank_info(ssid);
    let v1 = with_profile(profile, v0);
    if let Ok(po) = profile {
        lemma_profile_keeps(lines(po), InfoView { has_profile: true, ..v0 });
    }
    let v2 = with_scan(scan, v1);
    if let Ok(so) = scan {
        lemma_scan_keeps(lines(so), v1.ssid, v1);
    }
    assert(ip_setting(v2, which).len() == 0);
    if forall|j: int| 0 <= j < ls.len() ==> !ip_value_line(#[trigger] ls[j], ip_prefix(which)) {
        lemma_ip_setting_kept(ls, v2, which);
    }
    if which != 1 {
        assert forall|i: int|
            0 <= i < ls.len() && ip_value_line(#[trigger] ls[i], ip_prefix(which)) && (forall|j: int|
                0 <= j < i ==> !ip_value_line(#[trigger] ls[j], ip_prefix(which))) implies ip_setting(
            ip_from(ls, v2),
            which,
        ) == ip_value(ls[i]) by {
            lemma_ip_first(ls, v2, which, i);
        }
    } else {
        assert forall|i: int|
            0 <= i < ls.len() && ip_value_line(#[trigger] ls[i], ip_prefix(which)) && (forall|j: int|
                i < j < ls.len() ==> !ip_value_line(#[trigger] ls[j], ip_prefix(which))) implies ip_setting(
            ip_from(ls, v2),
            which,
        ) == ip_value(ls[i]) by {
            lemma_ip_last(ls, v2, i);
        }
    }
}

} // verus!
