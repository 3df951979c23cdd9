//! WireGuard: finding the tunnel, reporting its state, and bringing it up or
//! down, through a NetworkManager profile where there is one (no root needed,
//! and NetworkManager applies DNS itself) and otherwise through `wg-quick`.
use vstd::prelude::*;

use crate::nmcli::{nmcli_fields, result_view, split_fields, text_args};
use crate::text::{
    append_chars, chars_of, chars_of_strings, is_text, join, join_with, lines, same_chars,
    split_lines, split_n, splitn, string_of, strings, texts, trim, trim_chars,
};

verus! {

/// The WireGuard profile on a line of `nmcli -t -f NAME,TYPE,DEVICE
/// connection show`: its name, and whether it is active (has a device).
pub open spec fn wg_profile_of(line: Seq<char>) -> Option<(Seq<char>, bool)> {
    let p = nmcli_fields(line, 3);
    if p.len() == 3 && p[1] == "wireguard"@ {
        Some((p[0], p[2].len() > 0))
    } else {
        None
    }
}

/// The first WireGuard profile on the lines `ls`.
pub open spec fn first_wg_profile(ls: Seq<Seq<char>>) -> Option<(Seq<char>, bool)>
    decreases ls.len(),
{
    if ls.len() == 0 {
        None
    } else if wg_profile_of(ls[0]) is Some {
        wg_profile_of(ls[0])
    } else {
        first_wg_profile(ls.drop_first())
    }
}

/// The first WireGuard-type NetworkManager profile, if any; none where
/// `nmcli` failed.
pub open spec fn wg_profile(out: Result<Seq<char>, Seq<char>>) -> Option<(Seq<char>, bool)> {
    match out {
        Ok(o) => first_wg_profile(lines(o)),
        Err(_) => None,
    }
}

/// The view of a profile: its name's characters and whether it is active.
pub open spec fn profile_view(p: Option<(String, bool)>) -> Option<(Seq<char>, bool)> {
    match p {
        Some((name, active)) => Some((name@, active)),
        None => None,
    }
}

/// The first WireGuard-type NetworkManager profile, as (name, currently
/// active), from the output of `nmcli -t -f NAME,TYPE,DEVICE connection show`.
pub fn nm_wg_profile(out: &Result<String, String>) -> (r: Option<(String, bool)>)
    ensures
        profile_view(r) == wg_profile(result_view(*out)),
{
    let o = match out {
        Ok(o) => o,
        Err(_) => {
            return None;
        },
    };
    let ls = split_lines(&chars_of(o.as_str()));
    let n = ls.len();
    assert(texts(ls@).skip(0) =~= texts(ls@));
    for i in 0..n
        invariant
            n == ls.len(),
            first_wg_profile(texts(ls@)) == first_wg_profile(texts(ls@).skip(i as int)),
            texts(ls@) == lines(o@),
            result_view(*out) == Ok::<Seq<char>, Seq<char>>(o@),
    {
        assert(texts(ls@).skip(i as int).drop_first() =~= texts(ls@).skip(i + 1));
        assert(texts(ls@).skip(i as int)[0] == ls@[i as int]@);
        let p = split_fields(&ls[i], 3);
        if p.len() == 3 {
            assert(texts(p@)[1] == p@[1]@);
        }
        if p.len() == 3 && is_text(&p[1], "wireguard") {
            assert(texts(p@)[0] == p@[0]@);
            assert(texts(p@)[1] == p@[1]@);
            assert(texts(p@)[2] == p@[2]@);
            return Some((string_of(&p[0]), p[2].len() > 0));
        }
    }
    assert(texts(ls@).skip(n as int) =~= Seq::<Seq<char>>::empty());
    None
}

/// The interface on a line of `ip -o link show type wireguard`, which looks
/// like `9: wg0: <UP,...>`: the text between the first and the second `:`,
/// trimmed, up to any `@`; none where the line has no `:` or that is empty.
pub open spec fn iface_of(line: Seq<char>) -> Option<Seq<char>> {
    let pieces = splitn(line, 3, ':');
    if pieces.len() < 2 {
        None
    } else {
        let name = splitn(trim(pieces[1]), 2, '@')[0];
        if name.len() > 0 {
            Some(name)
        } else {
            None
        }
    }
}

/// The first line of `ls` that names an interface, and the interface.
pub open spec fn first_iface(ls: Seq<Seq<char>>) -> Option<Seq<char>>
    decreases ls.len(),
{
    if ls.len() == 0 {
        None
    } else if iface_of(ls[0]) is Some {
        iface_of(ls[0])
    } else {
        first_iface(ls.drop_first())
    }
}

/// The characters of an optional string.
pub open spec fn string_option_view(s: Option<String>) -> Option<Seq<char>> {
    match s {
        Some(x) => Some(x@),
        None => None,
    }
}

/// The first active WireGuard interface in the listing of
/// `ip -o link show type wireguard` (which works unprivileged, unlike
/// `wg show` or reading `/etc/wireguard`).
pub fn active_wg_iface(listing: &str) -> (r: Option<String>)
    ensures
        string_option_view(r) == first_iface(lines(listing@)),
{
    let ls = split_lines(&chars_of(listing));
    let n = ls.len();
    assert(texts(ls@).skip(0) =~= texts(ls@));
    for i in 0..n
        invariant
            n == ls.len(),
            first_iface(texts(ls@)) == first_iface(texts(ls@).skip(i as int)),
            texts(ls@) == lines(listing@),
    {
        assert(texts(ls@).skip(i as int).drop_first() =~= texts(ls@).skip(i + 1));
        assert(texts(ls@).skip(i as int)[0] == ls@[i as int]@);
        let pieces = split_n(&ls[i], 3, ':');
        if pieces.len() >= 2 {
            assert(texts(pieces@)[1] == pieces@[1]@);
            let at = split_n(&trim_chars(&pieces[1]), 2, '@');
            proof {
                crate::text::lemma_splitn_nonempty(trim(pieces@[1]@), 2, '@', seq![], seq![]);
            }
            assert(texts(at@)[0] == at@[0]@);
            assert(iface_of(ls@[i as int]@) == (if at@[0]@.len() > 0 {
                Some(at@[0]@)
            } else {
                None
            }));
            if at[0].len() > 0 {
                return Some(string_of(&at[0]));
            }
        }
    }
    assert(texts(ls@).skip(n as int) =~= Seq::<Seq<char>>::empty());
    None
}

/// Whether WireGuard is installed and up, and the interface in question.
pub struct WireguardStatus {
    pub installed: bool,
    pub up: bool,
    pub interface: String,
}

/// The WireGuard state: a NetworkManager profile, where there is one, counts
/// as installed, up when active, under its own name; otherwise it is
/// installed when `wg-quick` is, up when an interface is active, and the
/// interface is the active one, or else the one a fresh `up` would bring up.
pub fn wireguard_status(
    profile: Option<(String, bool)>,
    wg_quick_installed: bool,
    active: Option<String>,
    default_iface: String,
) -> (s: WireguardStatus)
    ensures
        match profile {
            Some((name, on)) => s.installed && s.up == on && s.interface@ == name@,
            None => match active {
                Some(iface) => s.installed == wg_quick_installed && s.up && s.interface@ == iface@,
                None => s.installed == wg_quick_installed && !s.up && s.interface@
                    == default_iface@,
            },
        },
{
    match profile {
        Some((name, on)) => WireguardStatus { installed: true, up: on, interface: name },
        None => match active {
            Some(iface) => WireguardStatus {
                installed: wg_quick_installed,
                up: true,
                interface: iface,
            },
            None => WireguardStatus {
                installed: wg_quick_installed,
                up: false,
                interface: default_iface,
            },
        },
    }
}

} // verus!

verus! {

/// The `nmcli` / `wg-quick` action word.
pub open spec fn action_word(up: bool) -> Seq<char> {
    if up {
        "up"@
    } else {
        "down"@
    }
}

fn action_text(up: bool) -> (s: String)
    ensures
        s@ == action_word(up),
{
    if up {
        String::from_str("up")
    } else {
        String::from_str("down")
    }
}

/// The `nmcli` arguments that switch the NetworkManager profile `interface`,
/// where the WireGuard profile has that name; none otherwise.
pub fn profile_switch_args(up: bool, interface: &str, profile: &Option<(String, bool)>) -> (r:
    Option<Vec<String>>)
    ensures
        match *profile {
            Some((name, _)) => if name@ == interface@ {
                r matches Some(args) && strings(args@) == seq![
                    "connection"@,
                    action_word(up),
                    "id"@,
                    name@,
                ]
            } else {
                r is None
            },
            None => r is None,
        },
{
    match profile {
        Some((name, _)) => {
            if same_chars(&chars_of(name.as_str()), &chars_of(interface)) {
                let mut args: Vec<String> = Vec::new();
                args.push(String::from_str("connection"));
                args.push(action_text(up));
                args.push(String::from_str("id"));
                args.push(name.clone());
                assert(strings(args@) =~= seq!["connection"@, action_word(up), "id"@, name@]);
                Some(args)
            } else {
                None
            }
        },
        None => None,
    }
}

/// The number of ways `wg-quick` is tried with root rights.
pub const RUNNERS: usize = 3;

/// The programs that give `wg-quick` root rights, in the order they are
/// tried: passwordless `doas` and `sudo` first (non-interactive, so they fail
/// fast when a password would be needed), then `pkexec`, whose
/// `--disable-internal-agent` keeps it from prompting on the terminal when no
/// graphical polkit agent is around; it errors out instead.
pub open spec fn runner(i: nat) -> Seq<Seq<char>> {
    if i == 0 {
        seq!["doas"@, "-n"@]
    } else if i == 1 {
        seq!["sudo"@, "-n"@]
    } else {
        seq!["pkexec"@, "--disable-internal-agent"@]
    }
}

/// The command line of attempt `i`: the runner, then `wg-quick`, the action
/// and the interface.
pub open spec fn escalated_command(i: nat, up: bool, interface: Seq<char>) -> Seq<Seq<char>> {
    runner(i) + seq!["wg-quick"@, action_word(up), interface]
}

/// How one attempt went.
pub enum RunOutcome {
    /// The command exited successfully.
    Succeeded,
    /// The command exited with a failure: its standard error and its exit
    /// status as text.
    Failed { stderr: String, status: String },
    /// The command could not be started: the error as text.
    NotStarted { error: String },
}

/// What a failed attempt `i` adds to the error report: the trimmed standard
/// error, or, where that is empty, the runner's name and the exit status; for
/// a command that did not start, the runner's name and the error.
pub open spec fn failure_note(i: nat, outcome: RunOutcome) -> Seq<char> {
    match outcome {
        RunOutcome::Failed { stderr, status } => if trim(stderr@).len() > 0 {
            trim(stderr@)
        } else {
            runner(i)[0] + ": "@ + status@
        },
        RunOutcome::NotStarted { error } => runner(i)[0] + ": "@ + error@,
        RunOutcome::Succeeded => seq![],
    }
}

/// Bringing a WireGuard interface up or down with `wg-quick`, which needs
/// root: the runners are tried in turn until one succeeds; when all fail,
/// their errors are reported together.
pub struct Escalation {
    pub up: bool,
    pub interface: String,
    /// The attempt next to run.
    pub attempt: usize,
    /// What each failed attempt reported.
    pub errors: Vec<String>,
}

impl Escalation {
    /// No attempt made yet.
    pub fn new(up: bool, interface: String) -> (e: Escalation)
        ensures
            e.up == up,
            e.interface@ == interface@,
            e.attempt == 0,
            e.errors@.len() == 0,
    {
        Escalation { up, interface, attempt: 0, errors: Vec::new() }
    }

    /// The command line of the attempt next to run.
    pub fn command(&self) -> (args: Vec<String>)
        requires
            self.attempt < RUNNERS,
        ensures
            strings(args@) == escalated_command(self.attempt as nat, self.up, self.interface@),
    {
        let mut args: Vec<String> = Vec::new();
        if self.attempt == 0 {
            args.push(String::from_str("doas"));
            args.push(String::from_str("-n"));
        } else if self.attempt == 1 {
            args.push(String::from_str("sudo"));
            args.push(String::from_str("-n"));
        } else {
            args.push(String::from_str("pkexec"));
            args.push(String::from_str("--disable-internal-agent"));
        }
        args.push(String::from_str("wg-quick"));
        args.push(action_text(self.up));
        args.push(self.interface.clone());
        assert(strings(args@) =~= escalated_command(
            self.attempt as nat,
            self.up,
            self.interface@,
        ));
        args
    }

    fn runner_name(&self) -> (s: Vec<char>)
        requires
            self.attempt < RUNNERS,
        ensures
            s@ == runner(self.attempt as nat)[0],
    {
        if self.attempt == 0 {
            chars_of("doas")
        } else if self.attempt == 1 {
            chars_of("sudo")
        } else {
            chars_of("pkexec")
        }
    }

    fn note(&self, outcome: &RunOutcome) -> (s: Vec<char>)
        requires
            self.attempt < RUNNERS,
        ensures
            s@ == failure_note(self.attempt as nat, *outcome),
    {
        let tail = match outcome {
            RunOutcome::Failed { stderr, status } => {
                let err = trim_chars(&chars_of(stderr.as_str()));
                if err.len() > 0 {
                    return err;
                }
                chars_of(status.as_str())
            },
            RunOutcome::NotStarted { error } => chars_of(error.as_str()),
            RunOutcome::Succeeded => {
                return Vec::new();
            },
        };
        let mut s = self.runner_name();
        append_chars(&mut s, &chars_of(": "));
        append_chars(&mut s, &tail);
        s
    }

    /// Records how the attempt next to run went. A success ends the
    /// escalation with `Ok`; a failure is noted and moves on to the next
    /// runner, and after the last one the escalation ends with all notes
    /// joined by ` · `.
    pub fn record(&mut self, outcome: RunOutcome) -> (done: Option<Result<(), String>>)
        requires
            old(self).attempt < RUNNERS,
        ensures
            final(self).up == old(self).up,
            final(self).interface@ == old(self).interface@,
            outcome is Succeeded ==> done == Some(Ok::<(), String>(())) && final(self).attempt
                == old(self).attempt && strings(final(self).errors@) == strings(old(self).errors@),
            !(outcome is Succeeded) ==> {
                &&& final(self).attempt == old(self).attempt + 1
                &&& strings(final(self).errors@) == strings(old(self).errors@).push(
                    failure_note(old(self).attempt as nat, outcome),
                )
                &&& if final(self).attempt == RUNNERS {
                    done matches Some(Err(msg)) && msg@ == join(
                        strings(final(self).errors@),
                        " · "@,
                    )
                } else {
                    done is None
                }
            },
    {
        if let RunOutcome::Succeeded = outcome {
            return Some(Ok(()));
        }
        let note = self.note(&outcome);
        let ghost before = self.errors@;
        self.errors.push(string_of(&note));
        assert(strings(self.errors@) =~= strings(before).push(note@));
        self.attempt = self.attempt + 1;
        if self.attempt == RUNNERS {
            let all = chars_of_strings(&self.errors);
            let msg = join_with(&all, &chars_of(" · "));
            Some(Err(string_of(&msg)))
        } else {
            None
        }
    }
}

} // verus!

verus! {

/// The arguments of `nmcli` that list the profiles' names, types and
/// devices.
pub fn wg_profiles_args() -> (args: Vec<String>)
    ensures
        strings(args@) == seq!["-t"@, "-f"@, "NAME,TYPE,DEVICE"@, "connection"@, "show"@],
{
    let args = text_args(&["-t", "-f", "NAME,TYPE,DEVICE", "connection", "show"]);
    assert(strings(args@) =~= seq!["-t"@, "-f"@, "NAME,TYPE,DEVICE"@, "connection"@, "show"@]);
    args
}

/// The arguments of `ip` that list the WireGuard links, one per line.
pub fn wg_links_args() -> (args: Vec<String>)
    ensures
        strings(args@) == seq!["-o"@, "link"@, "show"@, "type"@, "wireguard"@],
{
    let args = text_args(&["-o", "link", "show", "type", "wireguard"]);
    assert(strings(args@) =~= seq!["-o"@, "link"@, "show"@, "type"@, "wireguard"@]);
    args
}

/// The arguments of `which` that look for `wg-quick`.
pub fn wg_quick_lookup_args() -> (args: Vec<String>)
    ensures
        strings(args@) == seq!["wg-quick"@],
{
    let args = text_args(&["wg-quick"]);
    assert(strings(args@) =~= seq!["wg-quick"@]);
    args
}

} // verus!

verus! {

/// Whether a line of `ip -o link` names the interface `name`: `name` is not
/// empty, and it is the text between the line's first and second `:`,
/// trimmed, up to any `@`.
pub open spec fn names_iface(line: Seq<char>, name: Seq<char>) -> bool {
    let pieces = splitn(line, 3, ':');
    &&& pieces.len() >= 2
    &&& name.len() > 0
    &&& splitn(trim(pieces[1]), 2, '@')[0] == name
}

proof fn lemma_iface_of_names(line: Seq<char>)
    ensures
        iface_of(line) is Some ==> names_iface(line, iface_of(line)->0),
        forall|y: Seq<char>| #[trigger] names_iface(line, y) ==> iface_of(line) == Some(y),
{
}

proof fn lemma_first_iface_from(ls: Seq<Seq<char>>, i: int, x: Seq<char>)
    requires
        0 <= i < ls.len(),
        names_iface(ls[i], x),
        forall|j: int, y: Seq<char>| 0 <= j < i ==> !#[trigger] names_iface(ls[j], y),
    ensures
        first_iface(ls) == Some(x),
    decreases ls.len(),
{
    lemma_iface_of_names(ls[0]);
    if i == 0 {
    } else {
        if iface_of(ls[0]) is Some {
            assert(!names_iface(ls[0], iface_of(ls[0])->0));
        }
        let rest = ls.drop_first();
        assert(rest[i - 1] == ls[i]);
        assert forall|j: int, y: Seq<char>| 0 <= j < i - 1 implies !#[trigger] names_iface(rest[j], y) by {
            assert(rest[j] == ls[j + 1]);
        }
        lemma_first_iface_from(rest, i - 1, x);
    }
}

proof fn lemma_no_iface_from(ls: Seq<Seq<char>>)
    requires
        forall|j: int, y: Seq<char>| 0 <= j < ls.len() ==> !#[trigger] names_iface(ls[j], y),
    ensures
        first_iface(ls) is None,
    decreases ls.len(),
{
    if ls.len() > 0 {
        lemma_iface_of_names(ls[0]);
        if iface_of(ls[0]) is Some {
            assert(!names_iface(ls[0], iface_of(ls[0])->0));
        }
        let rest = ls.drop_first();
        assert forall|j: int, y: Seq<char>| 0 <= j < rest.len() implies !#[trigger] names_iface(rest[j], y) by {
            assert(rest[j] == ls[j + 1]);
        }
        lemma_no_iface_from(rest);
    }
}

/// The active interface is the one named by the first line of the listing
/// that names one.
pub proof fn lemma_first_listed_iface(listing: Seq<char>, i: int, name: Seq<char>)
    requires
        0 <= i < lines(listing).len(),
        names_iface(lines(listing)[i], name),
        forall|j: int, y: Seq<char>| 0 <= j < i ==> !#[trigger] names_iface(lines(listing)[j], y),
    ensures
        first_iface(lines(listing)) == Some(name),
{
    lemma_first_iface_from(lines(listing), i, name);
}

/// Where no line of the listing names an interface, none is active.
pub proof fn lemma_no_listed_iface(listing: Seq<char>)
    requires
        forall|j: int, y: Seq<char>|
            0 <= j < lines(listing).len() ==> !#[trigger] names_iface(lines(listing)[j], y),
    ensures
        first_iface(lines(listing)) is None,
{
    lemma_no_iface_from(lines(listing));
}

} // verus!

verus! {

/// Whether a line of `nmcli -t -f NAME,TYPE,DEVICE connection show` is a
/// WireGuard profile: it has three fields and the type is exactly
/// `wireguard`.
pub open spec fn wg_profile_line(line: Seq<char>) -> bool {
    let p = nmcli_fields(line, 3);
    p.len() == 3 && p[1] == "wireguard"@
}

proof fn lemma_first_wg_from(ls: Seq<Seq<char>>, i: int)
    requires
        0 <= i < ls.len(),
        wg_profile_line(ls[i]),
        forall|j: int| 0 <= j < i ==> !wg_profile_line(#[trigger] ls[j]),
    ensures
        first_wg_profile(ls) == Some((nmcli_fields(ls[i], 3)[0], nmcli_fields(ls[i], 3)[2].len() > 0)),
    decreases ls.len(),
{
    if i > 0 {
        assert(!wg_profile_line(ls[0]));
        let rest = ls.drop_first();
        assert(rest[i - 1] == ls[i]);
        assert forall|j: int| 0 <= j < i - 1 implies !wg_profile_line(#[trigger] rest[j]) by {
            assert(rest[j] == ls[j + 1]);
        }
        lemma_first_wg_from(rest, i - 1);
    }
}

proof fn lemma_no_wg_from(ls: Seq<Seq<char>>)
    requires
        forall|j: int| 0 <= j < ls.len() ==> !wg_profile_line(#[trigger] ls[j]),
    ensures
        first_wg_profile(ls) is None,
    decreases ls.len(),
{
    if ls.len() > 0 {
        assert(!wg_profile_line(ls[0]));
        let rest = ls.drop_first();
        assert forall|j: int| 0 <= j < rest.len() implies !wg_profile_line(#[trigger] rest[j]) by {
            assert(rest[j] == ls[j + 1]);
        }
        lemma_no_wg_from(rest);
    }
}

/// The WireGuard profile is the first line of the listing whose type is
/// `wireguard`: its name, and whether its device field is filled (active).
pub proof fn lemma_first_listed_wg_profile(out: Seq<char>, i: int)
    requires
        0 <= i < lines(out).len(),
        wg_profile_line(lines(out)[i]),
        forall|j: int| 0 <= j < i ==> !wg_profile_line(#[trigger] lines(out)[j]),
    ensures
        wg_profile(Ok(out)) == Some(
            (nmcli_fields(lines(out)[i], 3)[0], nmcli_fields(lines(out)[i], 3)[2].len() > 0),
        ),
{
    lemma_first_wg_from(lines(out), i);
}

/// Where no line of the listing has the type `wireguard`, or `nmcli`
/// failed, there is no WireGuard profile.
pub proof fn lemma_no_listed_wg_profile(out: Result<Seq<char>, Seq<char>>)
    requires
        out matches Ok(o) ==> forall|j: int|
            0 <= j < lines(o).len() ==> !wg_profile_line(#[trigger] lines(o)[j]),
    ensures
        wg_profile(out) is None,
{
    if let Ok(o) = out {
        lemma_no_wg_from(lines(o));
    }
}

} // verus!
