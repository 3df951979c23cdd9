//! Reading the terse (`-t`) output of `nmcli`, and what is handed to it.
use vstd::prelude::*;

use crate::text::{
    chars_of, contains_text, is_text, lines, split_lines, string_of, strings, strings_of, texts, trim,
    trim_chars,
};

verus! {

/// The fields of an `nmcli -t` line after the fields `done` and the
/// unfinished field `cur`, with at most `max` fields in all: a `:` ends a
/// field, `\:` stands for a `:` inside a field, and once `max - 1` fields are
/// done the rest of the line is the last field.
pub open spec fn fields_from(
    s: Seq<char>,
    max: nat,
    done: Seq<Seq<char>>,
    cur: Seq<char>,
) -> Seq<Seq<char>>
    decreases s.len(),
{
    if s.len() == 0 {
        done.push(cur)
    } else if s[0] == '\\' && s.len() > 1 && s[1] == ':' {
        fields_from(s.skip(2), max, done, cur.push(':'))
    } else if s[0] == ':' && done.len() + 1 < max {
        fields_from(s.drop_first(), max, done.push(cur), seq![])
    } else {
        fields_from(s.drop_first(), max, done, cur.push(s[0]))
    }
}

/// The fields of the `nmcli -t` line `line`, at most `max_parts` of them.
pub open spec fn nmcli_fields(line: Seq<char>, max_parts: nat) -> Seq<Seq<char>> {
    fields_from(line, max_parts, seq![], seq![])
}

/// The fields of the `nmcli -t` line `line`, at most `max_parts` of them.
pub fn split_fields(line: &Vec<char>, max_parts: usize) -> (r: Vec<Vec<char>>)
    ensures
        texts(r@) == nmcli_fields(line@, max_parts as nat),
{
    let mut done: Vec<Vec<char>> = Vec::new();
    let mut cur: Vec<char> = Vec::new();
    let n = line.len();
    let mut i: usize = 0;
    assert(line@.skip(0) =~= line@);
    assert(texts(done@) =~= Seq::<Seq<char>>::empty());
    while i < n
        invariant
            n == line.len(),
            i <= n,
            done.len() <= i,
            nmcli_fields(line@, max_parts as nat) == fields_from(
                line@.skip(i as int),
                max_parts as nat,
                texts(done@),
                cur@,
            ),
        decreases n - i,
    {
        let c = line[i];
        if c == '\\' && i + 1 < n && line[i + 1] == ':' {
            assert(line@.skip(i as int).skip(2) =~= line@.skip(i + 2));
            cur.push(':');
            i = i + 2;
        } else if c == ':' && done.len() + 1 < max_parts {
            assert(line@.skip(i as int).drop_first() =~= line@.skip(i + 1));
            let ghost before = done@;
            let ghost piece = cur@;
            done.push(cur);
            assert(texts(done@) =~= texts(before).push(piece));
            cur = Vec::new();
            i = i + 1;
        } else {
            assert(line@.skip(i as int).drop_first() =~= line@.skip(i + 1));
            cur.push(c);
            i = i + 1;
        }
    }
    assert(line@.skip(n as int) =~= Seq::<char>::empty());
    let ghost before = done@;
    let ghost last = cur@;
    done.push(cur);
    assert(texts(done@) =~= texts(before).push(last));
    done
}

/// Splits an `nmcli -t` output line on unescaped `:` into at most `max_parts`
/// fields; `\:` stands for a `:` inside a field.
pub fn split_nmcli(line: &str, max_parts: usize) -> (r: Vec<String>)
    ensures
        strings(r@) == nmcli_fields(line@, max_parts as nat),
        1 <= r.len(),
        r.len() <= max_parts || r.len() == 1,
{
    let chars = chars_of(line);
    let fields = split_fields(&chars, max_parts);
    proof {
        lemma_fields_count(line@, max_parts as nat, seq![], seq![]);
    }
    strings_of(&fields)
}

/// However a line reads, it has at least one field past those already done,
/// and no more than `max` fields in all unless the done ones already reach it.
pub proof fn lemma_fields_count(s: Seq<char>, max: nat, done: Seq<Seq<char>>, cur: Seq<char>)
    ensures
        fields_from(s, max, done, cur).len() >= done.len() + 1,
        fields_from(s, max, done, cur).len() <= max || fields_from(s, max, done, cur).len()
            == done.len() + 1,
    decreases s.len(),
{
    if s.len() == 0 {
    } else if s[0] == '\\' && s.len() > 1 && s[1] == ':' {
        lemma_fields_count(s.skip(2), max, done, cur.push(':'));
    } else if s[0] == ':' && done.len() + 1 < max {
        lemma_fields_count(s.drop_first(), max, done.push(cur), seq![]);
    } else {
        lemma_fields_count(s.drop_first(), max, done, cur.push(s[0]));
    }
}

} // verus!

verus! {

/// A field as `nmcli -t` writes it: each `:` in it written `\:`.
pub open spec fn escape_field(f: Seq<char>) -> Seq<char>
    decreases f.len(),
{
    if f.len() == 0 {
        seq![]
    } else if f[0] == ':' {
        seq!['\\', ':'] + escape_field(f.drop_first())
    } else {
        seq![f[0]] + escape_field(f.drop_first())
    }
}

/// The line `nmcli -t` writes for the fields `fs`: the escaped fields with a
/// `:` between each two of them.
pub open spec fn nmcli_line(fs: Seq<Seq<char>>) -> Seq<char>
    decreases fs.len(),
{
    if fs.len() == 0 {
        seq![]
    } else if fs.len() == 1 {
        escape_field(fs[0])
    } else {
        escape_field(fs[0]) + seq![':'] + nmcli_line(fs.drop_first())
    }
}

/// Whether `f` ends with a backslash.
pub open spec fn ends_with_backslash(f: Seq<char>) -> bool {
    f.len() > 0 && f.last() == '\\'
}

/// Reading an escaped field appends the field itself to the unfinished one,
/// unless a trailing backslash of the field would pair with a `:` after it.
proof fn lemma_read_escaped(
    f: Seq<char>,
    rest: Seq<char>,
    max: nat,
    done: Seq<Seq<char>>,
    cur: Seq<char>,
)
    requires
        !(ends_with_backslash(f) && rest.len() > 0 && rest[0] == ':'),
    ensures
        fields_from(escape_field(f) + rest, max, done, cur) == fields_from(rest, max, done, cur + f),
    decreases f.len(),
{
    if f.len() == 0 {
        assert(escape_field(f) + rest =~= rest);
        assert(cur + f =~= cur);
    } else {
        let tail = f.drop_first();
        let s = escape_field(f) + rest;
        if tail.len() > 0 {
            assert(tail.last() == f.last());
        }
        lemma_read_escaped(tail, rest, max, done, cur.push(if f[0] == ':' { ':' } else { f[0] }));
        assert(cur.push(if f[0] == ':' { ':' } else { f[0] }) + tail =~= cur + f);
        if f[0] == ':' {
            assert(s =~= seq!['\\', ':'] + (escape_field(tail) + rest));
            assert(s.skip(2) =~= escape_field(tail) + rest);
        } else {
            assert(s =~= seq![f[0]] + (escape_field(tail) + rest));
            assert(s.drop_first() =~= escape_field(tail) + rest);
            if f[0] == '\\' && s.len() > 1 {
                if tail.len() > 0 {
                    if tail[0] == ':' {
                        assert(escape_field(tail)[0] == '\\');
                    } else {
                        assert(escape_field(tail)[0] == tail[0]);
                    }
                    assert(s[1] == escape_field(tail)[0]);
                } else {
                    assert(escape_field(tail) =~= Seq::<char>::empty());
                    assert(s[1] == rest[0]);
                }
            }
        }
    }
}

/// Splitting what `nmcli -t` writes gives back the fields it was written
/// from, when at most `max_parts` fields were written and no field but the
/// last ends with a backslash.
pub proof fn lemma_split_nmcli_roundtrip(fs: Seq<Seq<char>>, max_parts: nat)
    requires
        fs.len() >= 1,
        fs.len() <= max_parts,
        forall|i: int| 0 <= i < fs.len() - 1 ==> !ends_with_backslash(#[trigger] fs[i]),
    ensures
        nmcli_fields(nmcli_line(fs), max_parts) == fs,
{
    lemma_roundtrip_from(fs, max_parts, seq![]);
    assert(Seq::<Seq<char>>::empty() + fs =~= fs);
}

proof fn lemma_roundtrip_from(fs: Seq<Seq<char>>, max: nat, done: Seq<Seq<char>>)
    requires
        fs.len() >= 1,
        done.len() + fs.len() <= max,
        forall|i: int| 0 <= i < fs.len() - 1 ==> !ends_with_backslash(#[trigger] fs[i]),
    ensures
        fields_from(nmcli_line(fs), max, done, seq![]) == done + fs,
    decreases fs.len(),
{
    let f = fs[0];
    assert(Seq::<char>::empty() + f =~= f);
    if fs.len() == 1 {
        lemma_read_escaped(f, seq![], max, done, seq![]);
        assert(escape_field(f) + Seq::<char>::empty() =~= escape_field(f));
        assert(done.push(f) =~= done + fs);
    } else {
        let rest = fs.drop_first();
        let tail = seq![':'] + nmcli_line(rest);
        assert(!ends_with_backslash(fs[0]));
        lemma_read_escaped(f, tail, max, done, seq![]);
        assert(nmcli_line(fs) =~= escape_field(f) + tail);
        assert(tail.drop_first() =~= nmcli_line(rest));
        assert forall|i: int| 0 <= i < rest.len() - 1 implies !ends_with_backslash(
            #[trigger] rest[i],
        ) by {
            assert(rest[i] == fs[i + 1]);
        }
        lemma_roundtrip_from(rest, max, done.push(f));
        assert(done.push(f) + rest =~= done + fs);
    }
}

} // verus!

verus! {

/// What an `nmcli` run comes to: its standard output when it succeeded;
/// otherwise its trimmed standard error, or its trimmed standard output where
/// the error stream held nothing but white space; `nmcli: ` and the error
/// where it could not be run at all.
pub open spec fn outcome(run: Result<(bool, Seq<char>, Seq<char>), Seq<char>>) -> Result<
    Seq<char>,
    Seq<char>,
> {
    match run {
        Ok((success, stdout, stderr)) => if success {
            Ok(stdout)
        } else if trim(stderr).len() == 0 {
            Err(trim(stdout))
        } else {
            Err(trim(stderr))
        },
        Err(e) => Err("nmcli: "@ + e),
    }
}

/// The view of a command's result: the characters of its output or message.
pub open spec fn result_view(r: Result<String, String>) -> Result<Seq<char>, Seq<char>> {
    match r {
        Ok(o) => Ok(o@),
        Err(e) => Err(e@),
    }
}

/// The view of a run: whether it succeeded and its two output streams, or
/// the error that kept it from starting.
pub open spec fn run_view(run: Result<(bool, String, String), String>) -> Result<
    (bool, Seq<char>, Seq<char>),
    Seq<char>,
> {
    match run {
        Ok((success, stdout, stderr)) => Ok((success, stdout@, stderr@)),
        Err(e) => Err(e@),
    }
}

/// The result of an `nmcli` run, from its exit status and its two output
/// streams, or from the error that kept it from starting.
pub fn command_outcome(run: Result<(bool, String, String), String>) -> (r: Result<String, String>)
    ensures
        result_view(r) == outcome(run_view(run)),
{
    match run {
        Ok((success, stdout, stderr)) => {
            if success {
                return Ok(stdout);
            }
            let err = trim_chars(&chars_of(stderr.as_str()));
            if err.len() == 0 {
                Err(string_of(&trim_chars(&chars_of(stdout.as_str()))))
            } else {
                Err(string_of(&err))
            }
        },
        Err(e) => {
            let mut msg = String::from_str("nmcli: ");
            msg.append(e.as_str());
            Err(msg)
        },
    }
}

/// Whether the Wi-Fi radio is on, from the output of `nmcli radio wifi`: on
/// when the trimmed output reads `enabled`, and taken to be on when `nmcli`
/// failed.
pub open spec fn radio_on(out: Result<Seq<char>, Seq<char>>) -> bool {
    match out {
        Ok(o) => trim(o) == "enabled"@,
        Err(_) => true,
    }
}

/// Whether the Wi-Fi radio is on, from the result of `nmcli radio wifi`.
pub fn radio_enabled(out: &Result<String, String>) -> (r: bool)
    ensures
        r == radio_on(result_view(*out)),
{
    match out {
        Ok(o) => is_text(&trim_chars(&chars_of(o.as_str())), "enabled"),
        Err(_) => true,
    }
}

/// The profile name on a line of `nmcli -t -f NAME,TYPE connection show`,
/// where the profile is a Wi-Fi one.
pub open spec fn wifi_profile_name(line: Seq<char>) -> Option<Seq<char>> {
    let p = nmcli_fields(line, 2);
    if p.len() == 2 && p[1] == "802-11-wireless"@ {
        Some(p[0])
    } else {
        None
    }
}

/// The Wi-Fi profile names on `ls` added to `acc`, each name once, in the
/// order of their first line.
pub open spec fn saved_names_from(ls: Seq<Seq<char>>, acc: Seq<Seq<char>>) -> Seq<Seq<char>>
    decreases ls.len(),
{
    if ls.len() == 0 {
        acc
    } else {
        let next = match wifi_profile_name(ls[0]) {
            Some(n) => if acc.contains(n) {
                acc
            } else {
                acc.push(n)
            },
            None => acc,
        };
        saved_names_from(ls.drop_first(), next)
    }
}

/// The saved Wi-Fi profile names that `nmcli -t -f NAME,TYPE connection show`
/// lists; none where `nmcli` failed.
pub open spec fn saved_names(out: Result<Seq<char>, Seq<char>>) -> Seq<Seq<char>> {
    match out {
        Ok(o) => saved_names_from(lines(o), seq![]),
        Err(_) => seq![],
    }
}

fn wifi_profile(line: &Vec<char>) -> (r: Option<Vec<char>>)
    ensures
        match r {
            Some(n) => wifi_profile_name(line@) == Some(n@),
            None => wifi_profile_name(line@) is None,
        },
{
    let mut p = split_fields(line, 2);
    if p.len() == 2 && is_text(&p[1], "802-11-wireless") {
        assert(texts(p@)[1] == p@[1]@);
        let name = p.swap_remove(0);
        Some(name)
    } else {
        None
    }
}

/// Names of saved Wi-Fi connection profiles (profile name == SSID for
/// profiles created by `nmcli device wifi connect`), read from the output of
/// `nmcli -t -f NAME,TYPE connection show`; each name once.
pub fn saved_wifi_names(out: &Result<String, String>) -> (names: Vec<String>)
    ensures
        strings(names@) == saved_names(result_view(*out)),
        strings(names@).no_duplicates(),
{
    let mut acc: Vec<Vec<char>> = Vec::new();
    if let Ok(o) = out {
        let ls = split_lines(&chars_of(o.as_str()));
        let n = ls.len();
        assert(texts(ls@).skip(0) =~= texts(ls@));
        assert(texts(acc@) =~= Seq::<Seq<char>>::empty());
        for i in 0..n
            invariant
                n == ls.len(),
                saved_names_from(texts(ls@), seq![]) == saved_names_from(
                    texts(ls@).skip(i as int),
                    texts(acc@),
                ),
                texts(acc@).no_duplicates(),
        {
            assert(texts(ls@).skip(i as int).drop_first() =~= texts(ls@).skip(i + 1));
            assert(texts(ls@).skip(i as int)[0] == ls@[i as int]@);
            if let Some(name) = wifi_profile(&ls[i]) {
                if !contains_text(&acc, &name) {
                    let ghost before = acc@;
                    let ghost nm = name@;
                    acc.push(name);
                    assert(texts(acc@) =~= texts(before).push(nm));
                    assert forall|a: int, b: int|
                        0 <= a < b < texts(acc@).len() implies texts(acc@)[a] != texts(acc@)[b] by {
                        if b == texts(acc@).len() - 1 {
                            assert(texts(before)[a] == texts(acc@)[a]);
                        } else {
                            assert(texts(before)[a] == texts(acc@)[a]);
                            assert(texts(before)[b] == texts(acc@)[b]);
                        }
                    }
                }
            }
        }
        assert(texts(ls@).skip(n as int) =~= Seq::<Seq<char>>::empty());
    }
    strings_of(&acc)
}

/// The words `nmcli device wifi connect` is run with: the SSID, then the
/// password where one is given.
pub open spec fn connect_words(ssid: Seq<char>, password: Option<Seq<char>>) -> Seq<Seq<char>> {
    seq!["device"@, "wifi"@, "connect"@, ssid] + match password {
        Some(pw) => seq!["password"@, pw],
        None => seq![],
    }
}

/// The arguments of `nmcli` that connect to the network `ssid`.
pub fn connect_args(ssid: &str, password: Option<&str>) -> (args: Vec<String>)
    ensures
        strings(args@) == connect_words(
            ssid@,
            match password {
                Some(pw) => Some(pw@),
                None => None,
            },
        ),
{
    let mut args: Vec<String> = Vec::new();
    args.push(String::from_str("device"));
    args.push(String::from_str("wifi"));
    args.push(String::from_str("connect"));
    args.push(String::from_str(ssid));
    if let Some(pw) = password {
        args.push(String::from_str("password"));
        args.push(String::from_str(pw));
    }
    assert(strings(args@) =~= connect_words(
        ssid@,
        match password {
            Some(pw) => Some(pw@),
            None => None,
        },
    ));
    args
}

/// The arguments of `nmcli` that connect to the hidden network `ssid`.
pub fn connect_hidden_args(ssid: &str, password: Option<&str>) -> (args: Vec<String>)
    ensures
        strings(args@) == connect_words(
            ssid@,
            match password {
                Some(pw) => Some(pw@),
                None => None,
            },
        ) + seq!["hidden"@, "yes"@],
{
    let mut args = connect_args(ssid, password);
    let ghost before = args@;
    args.push(String::from_str("hidden"));
    args.push(String::from_str("yes"));
    assert(strings(args@) =~= strings(before) + seq!["hidden"@, "yes"@]);
    args
}

} // verus!

verus! {

proof fn lemma_saved_names_from(ls: Seq<Seq<char>>, acc: Seq<Seq<char>>, name: Seq<char>)
    ensures
        saved_names_from(ls, acc).contains(name) <==> (acc.contains(name) || exists|i: int|
            0 <= i < ls.len() && #[trigger] wifi_profile_name(ls[i]) == Some(name)),
    decreases ls.len(),
{
    if ls.len() > 0 {
        let rest = ls.drop_first();
        let next = match wifi_profile_name(ls[0]) {
            Some(n) => if acc.contains(n) {
                acc
            } else {
                acc.push(n)
            },
            None => acc,
        };
        lemma_saved_names_from(rest, next, name);
        if next.contains(name) && !acc.contains(name) {
            let n = wifi_profile_name(ls[0])->0;
            assert(next == acc.push(n));
            let k = choose|k: int| 0 <= k < next.len() && next[k] == name;
            assert(k == acc.len());
            assert(wifi_profile_name(ls[0]) == Some(name));
        }
        if acc.contains(name) {
            let k = choose|k: int| 0 <= k < acc.len() && acc[k] == name;
            assert(next[k] == name);
        }
        if exists|i: int| 0 <= i < ls.len() && #[trigger] wifi_profile_name(ls[i]) == Some(name) {
            let i = choose|i: int| 0 <= i < ls.len() && #[trigger] wifi_profile_name(ls[i]) == Some(name);
            if i == 0 {
                if !acc.contains(name) {
                    assert(next[acc.len() as int] == name);
                }
            } else {
                assert(rest[i - 1] == ls[i]);
            }
        }
        if exists|i: int| 0 <= i < rest.len() && #[trigger] wifi_profile_name(rest[i]) == Some(name) {
            let i = choose|i: int| 0 <= i < rest.len() && #[trigger] wifi_profile_name(rest[i]) == Some(name);
            assert(ls[i + 1] == rest[i]);
        }
    }
}

/// A name is among the saved Wi-Fi names exactly when some line of the
/// listing is a Wi-Fi profile of that name.
pub proof fn lemma_saved_name_listed(out: Seq<char>, name: Seq<char>)
    ensures
        saved_names(Ok(out)).contains(name) <==> exists|i: int|
            0 <= i < lines(out).len() && #[trigger] wifi_profile_name(lines(out)[i]) == Some(name),
{
    lemma_saved_names_from(lines(out), seq![], name);
}

} // verus!

verus! {

/// The arguments of `nmcli` that switch the Wi-Fi radio on or off.
pub fn radio_args(enabled: bool) -> (args: Vec<String>)
    ensures
        strings(args@) == seq!["radio"@, "wifi"@, if enabled { "on"@ } else { "off"@ }],
{
    let mut args: Vec<String> = Vec::new();
    args.push(String::from_str("radio"));
    args.push(String::from_str("wifi"));
    args.push(if enabled { String::from_str("on") } else { String::from_str("off") });
    assert(strings(args@) =~= seq!["radio"@, "wifi"@, if enabled { "on"@ } else { "off"@ }]);
    args
}

/// The arguments of `nmcli` that run `action` (`up`, `down`, `delete`) on
/// the saved profile `id`, and on nothing else.
pub open spec fn profile_words(action: Seq<char>, id: Seq<char>) -> Seq<Seq<char>> {
    seq!["connection"@, action, "id"@, id]
}

fn profile_action(action: &str, ssid: &str) -> (args: Vec<String>)
    ensures
        strings(args@) == profile_words(action@, ssid@),
{
    let mut args: Vec<String> = Vec::new();
    args.push(String::from_str("connection"));
    args.push(String::from_str(action));
    args.push(String::from_str("id"));
    args.push(String::from_str(ssid));
    assert(strings(args@) =~= profile_words(action@, ssid@));
    args
}

/// The arguments of `nmcli` that bring up the saved profile `ssid`, with no
/// password prompt.
pub fn connect_saved_args(ssid: &str) -> (args: Vec<String>)
    ensures
        strings(args@) == profile_words("up"@, ssid@),
{
    profile_action("up", ssid)
}

/// The arguments of `nmcli` that bring down the saved profile `ssid`.
pub fn disconnect_args(ssid: &str) -> (args: Vec<String>)
    ensures
        strings(args@) == profile_words("down"@, ssid@),
{
    profile_action("down", ssid)
}

/// The arguments of `nmcli` that delete the saved profile `ssid`.
pub fn forget_args(ssid: &str) -> (args: Vec<String>)
    ensures
        strings(args@) == profile_words("delete"@, ssid@),
{
    profile_action("delete", ssid)
}

/// The arguments of `nmcli` that set one setting of the saved profile `ssid`
/// to `value`, each of them a single argument.
pub open spec fn modify_words(id: Seq<char>, setting: Seq<char>, value: Seq<char>) -> Seq<Seq<char>> {
    seq!["connection"@, "modify"@, "id"@, id, setting, value]
}

fn modify(ssid: &str, setting: &str, value: &str) -> (args: Vec<String>)
    ensures
        strings(args@) == modify_words(ssid@, setting@, value@),
{
    let mut args: Vec<String> = Vec::new();
    args.push(String::from_str("connection"));
    args.push(String::from_str("modify"));
    args.push(String::from_str("id"));
    args.push(String::from_str(ssid));
    args.push(String::from_str(setting));
    args.push(String::from_str(value));
    assert(strings(args@) =~= modify_words(ssid@, setting@, value@));
    args
}

/// The arguments of `nmcli` that turn autoconnect of the saved profile
/// `ssid` on or off.
pub fn autoconnect_args(ssid: &str, enabled: bool) -> (args: Vec<String>)
    ensures
        strings(args@) == modify_words(
            ssid@,
            "connection.autoconnect"@,
            if enabled { "yes"@ } else { "no"@ },
        ),
{
    modify(ssid, "connection.autoconnect", if enabled { "yes" } else { "no" })
}

/// The arguments of `nmcli` that store `password` as the PSK of the saved
/// profile `ssid`; the password is one argument, as given.
pub fn save_password_args(ssid: &str, password: &str) -> (args: Vec<String>)
    ensures
        strings(args@) == modify_words(ssid@, "wifi-sec.psk"@, password@),
{
    modify(ssid, "wifi-sec.psk", password)
}

} // verus!

verus! {

/// Strings of the given words, in order.
pub fn text_args(ws: &[&str]) -> (args: Vec<String>)
    ensures
        strings(args@) == ws@.map_values(|w: &str| w@),
{
    let mut args: Vec<String> = Vec::new();
    let n = ws.len();
    for i in 0..n
        invariant
            n == ws@.len(),
            strings(args@) == ws@.map_values(|w: &str| w@).take(i as int),
    {
        let ghost before = args@;
        args.push(String::from_str(ws[i]));
        assert(strings(args@) =~= strings(before).push(ws@[i as int]@));
        assert(ws@.map_values(|w: &str| w@).take(i + 1) =~= ws@.map_values(|w: &str| w@).take(
            i as int,
        ).push(ws@[i as int]@));
    }
    assert(ws@.map_values(|w: &str| w@).take(n as int) =~= ws@.map_values(|w: &str| w@));
    args
}

/// The arguments of `nmcli` that list the saved profiles' names and types.
pub fn saved_profiles_args() -> (args: Vec<String>)
    ensures
        strings(args@) == seq!["-t"@, "-f"@, "NAME,TYPE"@, "connection"@, "show"@],
{
    let args = text_args(&["-t", "-f", "NAME,TYPE", "connection", "show"]);
    assert(strings(args@) =~= seq!["-t"@, "-f"@, "NAME,TYPE"@, "connection"@, "show"@]);
    args
}

/// The arguments of `nmcli` that list the Wi-Fi networks in sight, with a
/// fresh scan or from the cache.
pub fn wifi_list_args(rescan: bool) -> (args: Vec<String>)
    ensures
        strings(args@) == seq![
            "-t"@,
            "-f"@,
            "IN-USE,SSID,SIGNAL,SECURITY"@,
            "device"@,
            "wifi"@,
            "list"@,
            "--rescan"@,
            if rescan { "yes"@ } else { "no"@ },
        ],
{
    let args = text_args(
        &[
            "-t",
            "-f",
            "IN-USE,SSID,SIGNAL,SECURITY",
            "device",
            "wifi",
            "list",
            "--rescan",
            if rescan { "yes" } else { "no" },
        ],
    );
    assert(strings(args@) =~= seq![
        "-t"@,
        "-f"@,
        "IN-USE,SSID,SIGNAL,SECURITY"@,
        "device"@,
        "wifi"@,
        "list"@,
        "--rescan"@,
        if rescan { "yes"@ } else { "no"@ },
    ]);
    args
}

/// The arguments of `nmcli` that ask whether the Wi-Fi radio is on.
pub fn radio_state_args() -> (args: Vec<String>)
    ensures
        strings(args@) == seq!["radio"@, "wifi"@],
{
    let args = text_args(&["radio", "wifi"]);
    assert(strings(args@) =~= seq!["radio"@, "wifi"@]);
    args
}

/// The arguments of `nmcli` that show the autoconnect setting and the PSK,
/// in clear, of the saved profile `ssid`.
pub fn profile_secrets_args(ssid: &str) -> (args: Vec<String>)
    ensures
        strings(args@) == seq![
            "--show-secrets"@,
            "-t"@,
            "-f"@,
            "connection.autoconnect,802-11-wireless-security.psk"@,
            "connection"@,
            "show"@,
            "id"@,
            ssid@,
        ],
{
    let args = text_args(
        &[
            "--show-secrets",
            "-t",
            "-f",
            "connection.autoconnect,802-11-wireless-security.psk",
            "connection",
            "show",
            "id",
            ssid,
        ],
    );
    assert(strings(args@) =~= seq![
        "--show-secrets"@,
        "-t"@,
        "-f"@,
        "connection.autoconnect,802-11-wireless-security.psk"@,
        "connection"@,
        "show"@,
        "id"@,
        ssid@,
    ]);
    args
}

/// The arguments of `nmcli` that list BSSID, channel, frequency, rate and
/// security of the networks in the scan cache.
pub fn scan_cache_args() -> (args: Vec<String>)
    ensures
        strings(args@) == seq![
            "-t"@,
            "-f"@,
            "SSID,BSSID,CHAN,FREQ,RATE,SECURITY"@,
            "device"@,
            "wifi"@,
            "list"@,
        ],
{
    let args = text_args(&["-t", "-f", "SSID,BSSID,CHAN,FREQ,RATE,SECURITY", "device", "wifi", "list"]);
    assert(strings(args@) =~= seq![
        "-t"@,
        "-f"@,
        "SSID,BSSID,CHAN,FREQ,RATE,SECURITY"@,
        "device"@,
        "wifi"@,
        "list"@,
    ]);
    args
}

/// The arguments of `nmcli` that show the IPv4 settings of the active
/// connection `ssid`.
pub fn active_ip_args(ssid: &str) -> (args: Vec<String>)
    ensures
        strings(args@) == seq![
            "-t"@,
            "-f"@,
            "IP4.ADDRESS,IP4.GATEWAY,IP4.DNS"@,
            "connection"@,
            "show"@,
            "--active"@,
            "id"@,
            ssid@,
        ],
{
    let args = text_args(
        &["-t", "-f", "IP4.ADDRESS,IP4.GATEWAY,IP4.DNS", "connection", "show", "--active", "id", ssid],
    );
    assert(strings(args@) =~= seq![
        "-t"@,
        "-f"@,
        "IP4.ADDRESS,IP4.GATEWAY,IP4.DNS"@,
        "connection"@,
        "show"@,
        "--active"@,
        "id"@,
        ssid@,
    ]);
    args
}

} // verus!

verus! {

/// Whether `line` is a saved Wi-Fi profile named `name`: its two fields are
/// `name` and the type `802-11-wireless`, exactly.
pub open spec fn wifi_profile_line(line: Seq<char>, name: Seq<char>) -> bool {
    let p = nmcli_fields(line, 2);
    p.len() == 2 && p[1] == "802-11-wireless"@ && p[0] == name
}

/// The saved Wi-Fi names are exactly the names on the listing's lines whose
/// type field is `802-11-wireless`: no profile of another type counts.
pub proof fn lemma_saved_names_are_wifi_profiles(out: Seq<char>, name: Seq<char>)
    ensures
        saved_names(Ok(out)).contains(name) <==> exists|i: int|
            0 <= i < lines(out).len() && wifi_profile_line(#[trigger] lines(out)[i], name),
{
    lemma_saved_name_listed(out, name);
    let ls = lines(out);
    if exists|i: int| 0 <= i < ls.len() && wifi_profile_line(#[trigger] ls[i], name) {
        let i = choose|i: int| 0 <= i < ls.len() && wifi_profile_line(#[trigger] ls[i], name);
        assert(wifi_profile_name(ls[i]) == Some(name));
    }
    if exists|i: int| 0 <= i < ls.len() && #[trigger] wifi_profile_name(ls[i]) == Some(name) {
        let i = choose|i: int| 0 <= i < ls.len() && #[trigger] wifi_profile_name(ls[i]) == Some(name);
        assert(wifi_profile_line(ls[i], name));
    }
}

} // verus!
