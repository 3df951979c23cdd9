//! The desktop window built on egui: its network list, labels, status line
//! and password dialog.
use vstd::prelude::*;

use crate::networks::{
    lemma_table_of_rejoined_lines, all_unknown, lemma_order_without_saved, lemma_strongest_first_unique, lemma_table_without_saved,
    build_table, lemma_order_keeps_sound, lemma_table_sound, scan_table, sort_strongest_first,
    sound_table, strongest_first, views, NetworkView,
};
use crate::nmcli::run_view;
use crate::text::{
    has_prefix,
    join, lemma_lines_are_one_line, one_line, after_first_line, chars_of, lemma_lines_after_first, lines, split_lines, string_of, texts, trim, trim_chars};

verus! {

/// A network in the list.
#[derive(Clone, Debug)]
pub struct Network {
    pub ssid: String,
    /// Signal strength, 0 to 100.
    pub signal: u8,
    pub secured: bool,
    pub in_use: bool,
}

impl View for Network {
    type V = NetworkView;

    /// The window keeps no saved profiles, so no network counts as known.
    open spec fn view(&self) -> NetworkView {
        NetworkView {
            ssid: self.ssid@,
            signal: self.signal,
            secured: self.secured,
            in_use: self.in_use,
            known: false,
        }
    }
}

/// The values of a list of networks.
pub open spec fn list_views(v: Seq<Network>) -> Seq<NetworkView> {
    v.map_values(|n: Network| n@)
}

/// The lines after the first.
pub open spec fn after_header(ls: Seq<Seq<char>>) -> Seq<Seq<char>> {
    if ls.len() > 0 {
        ls.drop_first()
    } else {
        ls
    }
}

/// The networks in the output of `nmcli -t -f IN-USE,SSID,SIGNAL,SECURITY
/// device wifi list` past its first line: one entry per SSID, as the scan
/// table keeps them, strongest first.
pub fn parse_networks(output: &str) -> (networks: Vec<Network>)
    ensures
        strongest_first(scan_table(after_header(lines(output@)), seq![]), list_views(networks@)),
        sound_table(list_views(networks@), seq![]),
{
    let ls = split_lines(&chars_of(output));
    let start: usize = if ls.len() > 0 { 1 } else { 0 };
    assert(texts(ls@).skip(start as int) =~= after_header(lines(output@)));
    let none: Vec<Vec<char>> = Vec::new();
    assert(texts(none@) =~= Seq::<Seq<char>>::empty());
    let table = build_table(&ls, start, &none);
    proof {
        lemma_table_sound(after_header(lines(output@)), seq![], seq![]);
    }
    let sorted = sort_strongest_first(&table);
    proof {
        lemma_order_keeps_sound(views(table@), views(sorted@), seq![]);
    }
    let mut out: Vec<Network> = Vec::new();
    let n = sorted.len();
    for i in 0..n
        invariant
            n == sorted.len(),
            sound_table(views(sorted@), seq![]),
            list_views(out@) == views(sorted@).take(i as int),
    {
        let s = &sorted[i];
        assert(views(sorted@)[i as int] == s@);
        assert(!s.known);
        let ghost before = out@;
        out.push(Network { ssid: s.ssid.clone(), signal: s.signal, secured: s.secured, in_use: s.in_use });
        assert(list_views(out@) =~= list_views(before).push(s@));
        assert(views(sorted@).take(i + 1) =~= views(sorted@).take(i as int).push(s@));
    }
    assert(views(sorted@).take(n as int) =~= views(sorted@));
    out
}

/// Signal-strength bars: four from 75 to 100, three from 50, two from 25, and
/// one otherwise.
pub open spec fn bars_for(signal: u8) -> Seq<char> {
    if 75 <= signal <= 100 {
        "▂▄▆█"@
    } else if 50 <= signal <= 74 {
        "▂▄▆░"@
    } else if 25 <= signal <= 49 {
        "▂▄░░"@
    } else {
        "▂░░░"@
    }
}

/// The bars shown for a signal strength.
pub fn signal_bars(signal: u8) -> (bars: &'static str)
    ensures
        bars@ == bars_for(signal),
{
    if 75 <= signal && signal <= 100 {
        "▂▄▆█"
    } else if 50 <= signal && signal <= 74 {
        "▂▄▆░"
    } else if 25 <= signal && signal <= 49 {
        "▂▄░░"
    } else {
        "▂░░░"
    }
}

/// The text of a network's button: bars, SSID, a lock for a secured network
/// and a check mark for the one in use.
pub open spec fn label_of(net: NetworkView) -> Seq<char> {
    bars_for(net.signal) + " "@ + net.ssid + "  "@ + (if net.secured { "🔒"@ } else { "   "@ })
        + (if net.in_use { " ✓"@ } else { ""@ })
}

/// The text of a network's button.
pub fn network_label(net: &Network) -> (label: String)
    ensures
        label@ == label_of(net@),
{
    let mut label = String::from_str(signal_bars(net.signal));
    label.append(" ");
    label.append(net.ssid.as_str());
    label.append("  ");
    label.append(if net.secured { "🔒" } else { "   " });
    label.append(if net.in_use { " ✓" } else { "" });
    label
}

/// The status line while connecting to `ssid`.
pub fn connecting_status(ssid: &str) -> (status: String)
    ensures
        status@ == "Connecting to "@ + ssid@ + "…"@,
{
    let mut status = String::from_str("Connecting to ");
    status.append(ssid);
    status.append("…");
    status
}

/// The title of the password dialog for `ssid`.
pub fn dialog_title(ssid: &str) -> (title: String)
    ensures
        title@ == "Connect to "@ + ssid@,
{
    let mut title = String::from_str("Connect to ");
    title.append(ssid);
    title
}

/// The status line after connecting to `ssid`: `Connected to SSID` on
/// success; otherwise the trimmed error output, or the trimmed standard output
/// where the error output is blank; `nmcli error: ...` where `nmcli` could not
/// be run.
pub open spec fn connect_status_of(ssid: Seq<char>, run: Result<(bool, Seq<char>, Seq<char>), Seq<char>>) -> Seq<
    char,
> {
    match run {
        Ok((success, stdout, stderr)) => if success {
            "Connected to "@ + ssid
        } else if trim(stderr).len() == 0 {
            trim(stdout)
        } else {
            trim(stderr)
        },
        Err(e) => "nmcli error: "@ + e,
    }
}

/// The status line once connecting to `ssid` has finished.
pub fn connect_status(ssid: &str, run: &Result<(bool, String, String), String>) -> (status: String)
    ensures
        status@ == connect_status_of(ssid@, run_view(*run)),
{
    match run {
        Ok((success, stdout, stderr)) => {
            if *success {
                let mut s = String::from_str("Connected to ");
                s.append(ssid);
                s
            } else {
                let err = trim_chars(&chars_of(stderr.as_str()));
                if err.len() == 0 {
                    string_of(&trim_chars(&chars_of(stdout.as_str())))
                } else {
                    string_of(&err)
                }
            }
        },
        Err(e) => {
            let mut s = String::from_str("nmcli error: ");
            s.append(e.as_str());
            s
        },
    }
}

/// The outcome of a scan: on success the networks of its output and an empty
/// status line; on failure the list is kept and the status line shows the
/// trimmed error output, or `nmcli error: ...` where `nmcli` could not be run.
pub fn scan_report(run: &Result<(bool, String, String), String>) -> (report: (
    Option<Vec<Network>>,
    String,
))
    ensures
        match run_view(*run) {
            Ok((success, stdout, stderr)) => if success {
                report.0 matches Some(nets) && strongest_first(
                    scan_table(after_header(lines(stdout)), seq![]),
                    list_views(nets@),
                ) && report.1@.len() == 0
            } else {
                report.0 is None && report.1@ == trim(stderr)
            },
            Err(e) => report.0 is None && report.1@ == "nmcli error: "@ + e,
        },
{
    match run {
        Ok((success, stdout, stderr)) => {
            if *success {
                (Some(parse_networks(stdout.as_str())), String::new())
            } else {
                (None, string_of(&trim_chars(&chars_of(stderr.as_str()))))
            }
        },
        Err(e) => {
            let mut s = String::from_str("nmcli error: ");
            s.append(e.as_str());
            (None, s)
        },
    }
}

/// The password dialog: the secured network being connected to, if any, the
/// password typed so far, and whether it is shown in clear.
pub struct PasswordDialog {
    pub connecting_to: Option<String>,
    pub password: String,
    pub show_password: bool,
}

impl PasswordDialog {
    /// No dialog open.
    pub fn new() -> (d: PasswordDialog)
        ensures
            d.connecting_to is None,
            d.password@.len() == 0,
            !d.show_password,
    {
        PasswordDialog { connecting_to: None, password: String::new(), show_password: false }
    }

    /// A click on a network: a secured one opens the dialog for it with an
    /// empty, hidden password; an open one is connected to at once, and its
    /// SSID is returned.
    pub fn pick(&mut self, net: &Network) -> (connect_now: Option<String>)
        ensures
            net.secured ==> {
                &&& connect_now is None
                &&& final(self).connecting_to matches Some(s) && s@ == net.ssid@
                &&& final(self).password@.len() == 0
                &&& !final(self).show_password
            },
            !net.secured ==> {
                &&& connect_now matches Some(s) && s@ == net.ssid@
                &&& final(self).connecting_to == old(self).connecting_to
                &&& final(self).password == old(self).password
                &&& final(self).show_password == old(self).show_password
            },
    {
        if net.secured {
            self.connecting_to = Some(net.ssid.clone());
            self.password = String::new();
            self.show_password = false;
            None
        } else {
            Some(net.ssid.clone())
        }
    }

    /// Connect (the button or Enter): where the dialog is open, it closes,
    /// the password is cleared, and the SSID and the password typed are
    /// returned to connect with.
    pub fn confirm(&mut self) -> (request: Option<(String, String)>)
        ensures
            match old(self).connecting_to {
                Some(ssid) => request matches Some((s, pw)) && s@ == ssid@ && pw@
                    == old(self).password@,
                None => request is None,
            },
            final(self).connecting_to is None,
            old(self).connecting_to is Some ==> final(self).password@.len() == 0,
            old(self).connecting_to is None ==> final(self).password == old(self).password,
            final(self).show_password == old(self).show_password,
    {
        match self.connecting_to.take() {
            Some(ssid) => {
                let mut pw = String::new();
                std::mem::swap(&mut pw, &mut self.password);
                Some((ssid, pw))
            },
            None => None,
        }
    }

    /// Cancel, or the dialog closed: it closes and the password is cleared.
    pub fn dismiss(&mut self)
        ensures
            final(self).connecting_to is None,
            final(self).password@.len() == 0,
            final(self).show_password == old(self).show_password,
    {
        self.connecting_to = None;
        self.password = String::new();
    }
}

} // verus!

verus! {

/// Both front ends list the same networks: the window's list of an output is
/// the backend's list of that output after its first line, with no network
/// marked known, whatever profiles the backend was given.
pub proof fn lemma_window_list_is_backend_list(
    output: Seq<char>,
    saved: Seq<Seq<char>>,
    window_list: Seq<NetworkView>,
    backend_list: Seq<NetworkView>,
)
    requires
        strongest_first(scan_table(after_header(lines(output)), seq![]), window_list),
        strongest_first(scan_table(lines(after_first_line(output)), saved), backend_list),
    ensures
        window_list == all_unknown(backend_list),
{
    let ls = lines(after_first_line(output));
    lemma_lines_after_first(output);
    assert(after_header(lines(output)) == ls);
    lemma_table_without_saved(ls, saved, seq![]);
    assert(all_unknown(Seq::<NetworkView>::empty()) =~= Seq::<NetworkView>::empty());
    lemma_order_without_saved(scan_table(ls, saved), backend_list);
    lemma_strongest_first_unique(scan_table(ls, seq![]), window_list, all_unknown(backend_list));
}

} // verus!

verus! {

/// The same law with the backend given the lines after the first, joined
/// with `\n`: the window's list is that backend list with no network marked
/// known.
pub proof fn lemma_window_list_is_backend_list_of_rejoined_lines(
    output: Seq<char>,
    saved: Seq<Seq<char>>,
    window_list: Seq<NetworkView>,
    backend_list: Seq<NetworkView>,
)
    requires
        strongest_first(scan_table(after_header(lines(output)), seq![]), window_list),
        strongest_first(
            scan_table(lines(join(after_header(lines(output)), seq!['\n'])), saved),
            backend_list,
        ),
    ensures
        window_list == all_unknown(backend_list),
{
    let ls = after_header(lines(output));
    lemma_lines_are_one_line(output, seq![], seq![]);
    assert forall|i: int| 0 <= i < ls.len() implies one_line(#[trigger] ls[i]) by {
        assert(ls[i] == lines(output)[i + 1]);
    }
    lemma_table_of_rejoined_lines(ls, saved, seq![]);
    lemma_table_without_saved(ls, saved, seq![]);
    assert(all_unknown(Seq::<NetworkView>::empty()) =~= Seq::<NetworkView>::empty());
    lemma_order_without_saved(scan_table(ls, saved), backend_list);
    lemma_strongest_first_unique(scan_table(ls, seq![]), window_list, all_unknown(backend_list));
}

} // verus!

verus! {

/// Whether `s` ends with `x`.
pub open spec fn ends_with(s: Seq<char>, x: Seq<char>) -> bool {
    x.len() <= s.len() && s.skip(s.len() - x.len()) == x
}

/// `label` without a trailing check mark, where it has one.
pub open spec fn without_check(label: Seq<char>) -> Seq<char> {
    if ends_with(label, " ✓"@) {
        label.take(label.len() - 2)
    } else {
        label
    }
}

/// A network's button text starts with its bars, a space, its SSID and two
/// spaces; it ends with a check mark exactly when the network is in use, and
/// before that shows the lock exactly when the network is secured, each mark
/// independently of the other.
pub proof fn lemma_label_marks(net: NetworkView)
    ensures
        has_prefix(label_of(net), bars_for(net.signal) + " "@ + net.ssid + "  "@),
        ends_with(label_of(net), " ✓"@) == net.in_use,
        ends_with(without_check(label_of(net)), "🔒"@) == net.secured,
        without_check(label_of(net)).len() == (bars_for(net.signal) + " "@ + net.ssid + "  "@).len()
            + (if net.secured { 1int } else { 3int }),
{
    reveal_strlit(" ✓");
    reveal_strlit("🔒");
    reveal_strlit("   ");
    reveal_strlit("");
    let head = bars_for(net.signal) + " "@ + net.ssid + "  "@;
    let lock = if net.secured { "🔒"@ } else { "   "@ };
    let check = if net.in_use { " ✓"@ } else { ""@ };
    let label = label_of(net);
    assert(label == head + lock + check);
    assert(label.take(head.len() as int) =~= head);
    assert(lock.len() == (if net.secured { 1int } else { 3int }));
    if net.in_use {
        assert(label.skip(label.len() - 2) =~= " ✓"@);
        assert(label.take(label.len() - 2) =~= head + lock);
    } else {
        assert(label =~= head + lock);
        assert(label.last() == lock.last());
        assert(" ✓"@.last() == '✓');
        if ends_with(label, " ✓"@) {
            assert(label.skip(label.len() - 2).last() == label.last());
        }
    }
    let base = without_check(label);
    assert(base =~= head + lock);
    if net.secured {
        assert(base.skip(base.len() - 1) =~= "🔒"@);
    } else {
        assert(base.last() == ' ');
        if ends_with(base, "🔒"@) {
            assert(base.skip(base.len() - 1)[0] == base.last());
        }
    }
}

} // verus!
