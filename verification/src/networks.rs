//! The Wi-Fi networks that a scan sees, one entry per SSID, strongest first.
use vstd::prelude::*;

use crate::text::{
    join, lemma_lines_of_joined, lemma_lines_of_one_line, lemma_splitn_push, lemma_trim_trailing_space,
    one_line, splitn_from, strip_cr, is_space,
    chars_of, chars_of_strings, contains_text, is_text, lines, parse_number, parse_unsigned, same_chars, split_lines,
    split_n, splitn, string_of, strings, texts, trim, trim_chars,
};

verus! {

/// A network that a scan found.
#[derive(Clone, Debug)]
pub struct Network {
    pub ssid: String,
    /// Signal strength, 0 to 100.
    pub signal: u8,
    pub secured: bool,
    pub in_use: bool,
    /// Whether a saved profile bears the network's SSID.
    pub known: bool,
}

/// The mathematical value of a [`Network`].
pub struct NetworkView {
    pub ssid: Seq<char>,
    pub signal: u8,
    pub secured: bool,
    pub in_use: bool,
    pub known: bool,
}

impl View for Network {
    type V = NetworkView;

    open spec fn view(&self) -> NetworkView {
        NetworkView {
            ssid: self.ssid@,
            signal: self.signal,
            secured: self.secured,
            in_use: self.in_use,
            known: self.known,
        }
    }
}

/// The values of a sequence of networks.
pub open spec fn views(v: Seq<Network>) -> Seq<NetworkView> {
    v.map_values(|n: Network| n@)
}

/// One line of `nmcli -t -f IN-USE,SSID,SIGNAL,SECURITY device wifi list`.
pub struct Sighting {
    pub in_use: bool,
    pub ssid: Seq<char>,
    pub signal: u8,
    pub secured: bool,
}

/// What a scan line says, where it names a network: its first four
/// `:`-separated fields are the in-use mark (`*`), the SSID, the signal
/// strength (0 where it is no number up to 255) and the security, which
/// counts as none when empty or `--`. A line with fewer fields, or with an
/// empty or `--` SSID, names none. (A middle field holds no `:` at all, so
/// no `\:` escape can survive in the SSID.)
pub open spec fn parse_sighting(line: Seq<char>) -> Option<Sighting> {
    let parts = splitn(line, 5, ':');
    if parts.len() < 4 {
        None
    } else {
        let ssid = trim(parts[1]);
        let sec = trim(parts[3]);
        if ssid.len() == 0 || ssid == "--"@ {
            None
        } else {
            Some(
                Sighting {
                    in_use: trim(parts[0]) == "*"@,
                    ssid: ssid,
                    signal: match parse_unsigned(trim(parts[2]), 255) {
                        Some(v) => v as u8,
                        None => 0,
                    },
                    secured: sec.len() > 0 && sec != "--"@,
                },
            )
        }
    }
}

/// Whether the table `t` has an entry for `ssid`.
pub open spec fn has_ssid(t: Seq<NetworkView>, ssid: Seq<char>) -> bool {
    exists|i: int| 0 <= i < t.len() && #[trigger] t[i].ssid == ssid
}

/// Whether no SSID occurs twice in `t`.
pub open spec fn distinct_ssids(t: Seq<NetworkView>) -> bool {
    forall|i: int, j: int| 0 <= i < j < t.len() ==> #[trigger] t[i].ssid != #[trigger] t[j].ssid
}

/// The table `t` after the sighting `s`: a new SSID is added at the end, known
/// where `saved` holds it; for an SSID already there, the entry takes the
/// sighting's signal and in-use mark when the sighting is in use, or when the
/// entry is not in use and the sighting is stronger: the strongest signal is
/// kept, and the active entry is never given up. Any other sighting leaves
/// the table as it was.
pub open spec fn merge(t: Seq<NetworkView>, s: Sighting, saved: Seq<Seq<char>>) -> Seq<NetworkView> {
    if has_ssid(t, s.ssid) {
        let i = choose|i: int| 0 <= i < t.len() && #[trigger] t[i].ssid == s.ssid;
        if s.in_use || (!t[i].in_use && s.signal > t[i].signal) {
            t.update(i, NetworkView { signal: s.signal, in_use: s.in_use, ..t[i] })
        } else {
            t
        }
    } else {
        t.push(
            NetworkView {
                ssid: s.ssid,
                signal: s.signal,
                secured: s.secured,
                in_use: s.in_use,
                known: saved.contains(s.ssid),
            },
        )
    }
}

/// The table `t` after the scan lines `ls`, in order.
pub open spec fn table_from(ls: Seq<Seq<char>>, saved: Seq<Seq<char>>, t: Seq<NetworkView>) -> Seq<
    NetworkView,
>
    decreases ls.len(),
{
    if ls.len() == 0 {
        t
    } else {
        let next = match parse_sighting(ls[0]) {
            Some(s) => merge(t, s, saved),
            None => t,
        };
        table_from(ls.drop_first(), saved, next)
    }
}

/// The networks that the scan lines `ls` name, one entry per SSID, in the
/// order of their first sighting.
pub open spec fn scan_table(ls: Seq<Seq<char>>, saved: Seq<Seq<char>>) -> Seq<NetworkView> {
    table_from(ls, saved, seq![])
}

/// A scan line as read: the SSID still as characters.
struct SightingLine {
    in_use: bool,
    ssid: Vec<char>,
    signal: u8,
    secured: bool,
}

fn read_sighting(line: &Vec<char>) -> (r: Option<SightingLine>)
    ensures
        match r {
            Some(s) => parse_sighting(line@) == Some(
                Sighting { in_use: s.in_use, ssid: s.ssid@, signal: s.signal, secured: s.secured },
            ),
            None => parse_sighting(line@) is None,
        },
{
    let parts = split_n(line, 5, ':');
    if parts.len() < 4 {
        return None;
    }
    assert(texts(parts@)[0] == parts@[0]@);
    assert(texts(parts@)[1] == parts@[1]@);
    assert(texts(parts@)[2] == parts@[2]@);
    assert(texts(parts@)[3] == parts@[3]@);
    let in_use = is_text(&trim_chars(&parts[0]), "*");
    let ssid = trim_chars(&parts[1]);
    let signal: u8 = match parse_number(&trim_chars(&parts[2]), 255) {
        Some(v) => v as u8,
        None => 0,
    };
    let sec = trim_chars(&parts[3]);
    let secured = sec.len() > 0 && !is_text(&sec, "--");
    if ssid.len() == 0 || is_text(&ssid, "--") {
        return None;
    }
    Some(SightingLine { in_use, ssid, signal, secured })
}

/// The index of the entry for `ssid` in `t`, if any.
fn find_ssid(t: &Vec<Network>, ssid: &Vec<char>) -> (r: Option<usize>)
    ensures
        match r {
            Some(i) => i < t.len() && t@[i as int].ssid@ == ssid@,
            None => !has_ssid(views(t@), ssid@),
        },
{
    let n = t.len();
    for i in 0..n
        invariant
            n == t.len(),
            forall|j: int| 0 <= j < i ==> t@[j].ssid@ != ssid@,
    {
        if same_chars(&chars_of(t[i].ssid.as_str()), ssid) {
            return Some(i);
        }
    }
    assert forall|j: int| 0 <= j < views(t@).len() implies #[trigger] views(t@)[j].ssid != ssid@ by {
        assert(views(t@)[j] == t@[j]@);
    }
    None
}

/// Builds the table of the scan lines `ls` from index `start` on.
pub(crate) fn build_table(ls: &Vec<Vec<char>>, start: usize, saved: &Vec<Vec<char>>) -> (t: Vec<Network>)
    requires
        start <= ls.len(),
    ensures
        views(t@) == scan_table(texts(ls@).skip(start as int), texts(saved@)),
        distinct_ssids(views(t@)),
{
    let mut t: Vec<Network> = Vec::new();
    let n = ls.len();
    let ghost all = texts(ls@).skip(start as int);
    let ghost sv = texts(saved@);
    assert(all.skip(0) =~= all);
    assert(views(t@) =~= Seq::<NetworkView>::empty());
    let mut i = start;
    while i < n
        invariant
            start <= i <= n,
            n == ls.len(),
            all == texts(ls@).skip(start as int),
            sv == texts(saved@),
            scan_table(all, sv) == table_from(texts(ls@).skip(i as int), sv, views(t@)),
            distinct_ssids(views(t@)),
        decreases n - i,
    {
        assert(texts(ls@).skip(i as int).drop_first() =~= texts(ls@).skip(i + 1));
        assert(texts(ls@).skip(i as int)[0] == ls@[i as int]@);
        let ghost before = views(t@);
        match read_sighting(&ls[i]) {
            Some(s) => {
                let ghost sg = Sighting {
                    in_use: s.in_use,
                    ssid: s.ssid@,
                    signal: s.signal,
                    secured: s.secured,
                };
                match find_ssid(&t, &s.ssid) {
                    Some(k) => {
                        assert(before[k as int].ssid == sg.ssid);
                        assert(has_ssid(before, sg.ssid));
                        let ghost c = choose|c: int| 0 <= c < before.len() && #[trigger] before[c].ssid == sg.ssid;
                        assert(c == k as int) by {
                            if c < k as int {
                                assert(before[c].ssid != before[k as int].ssid);
                            } else if c > k as int {
                                assert(before[k as int].ssid != before[c].ssid);
                            }
                        }
                        if s.in_use || (!t[k].in_use && s.signal > t[k].signal) {
                            let updated = Network {
                                ssid: t[k].ssid.clone(),
                                signal: s.signal,
                                secured: t[k].secured,
                                in_use: s.in_use,
                                known: t[k].known,
                            };
                            t.set(k, updated);
                            assert(views(t@) =~= before.update(
                                k as int,
                                NetworkView { signal: sg.signal, in_use: sg.in_use, ..before[k as int] },
                            ));
                        }
                        assert(views(t@) == merge(before, sg, sv));
                    },
                    None => {
                        let known = contains_text(saved, &s.ssid);
                        let net = Network {
                            ssid: string_of(&s.ssid),
                            signal: s.signal,
                            secured: s.secured,
                            in_use: s.in_use,
                            known,
                        };
                        t.push(net);
                        assert(views(t@) =~= before.push(
                            NetworkView {
                                ssid: sg.ssid,
                                signal: sg.signal,
                                secured: sg.secured,
                                in_use: sg.in_use,
                                known: sv.contains(sg.ssid),
                            },
                        ));
                        assert(views(t@) == merge(before, sg, sv));
                        assert forall|a: int, b: int| 0 <= a < b < views(t@).len() implies
                            #[trigger] views(t@)[a].ssid != #[trigger] views(t@)[b].ssid by {
                            if b == before.len() {
                                assert(views(t@)[a] == before[a]);
                            } else {
                                assert(views(t@)[a] == before[a]);
                                assert(views(t@)[b] == before[b]);
                            }
                        }
                    },
                }
            },
            None => {},
        }
        i = i + 1;
    }
    assert(texts(ls@).skip(n as int) =~= Seq::<Seq<char>>::empty());
    t
}

} // verus!

verus! {

/// The strength by which networks are ordered: in use before not in use, then
/// by signal.
pub open spec fn rank(n: NetworkView) -> int {
    (if n.in_use { 256int } else { 0int }) + n.signal as int
}

/// `b` is `a` ordered by `p` (`b[j]` is `a[p[j]]`, each index of `a` once),
/// strongest first, and networks of equal strength keep the order they had in
/// `a`.
pub open spec fn stable_order(a: Seq<NetworkView>, b: Seq<NetworkView>, p: Seq<int>) -> bool {
    &&& b.len() == a.len()
    &&& p.len() == a.len()
    &&& forall|j: int| 0 <= j < b.len() ==> 0 <= #[trigger] p[j] < a.len() && b[j] == a[p[j]]
    &&& forall|j: int, k: int| 0 <= j < k < b.len() ==> #[trigger] p[j] != #[trigger] p[k]
    &&& forall|j: int, k: int|
        0 <= j < k < b.len() ==> rank(#[trigger] b[j]) >= rank(#[trigger] b[k])
    &&& forall|j: int, k: int|
        0 <= j < k < b.len() && rank(#[trigger] b[j]) == rank(#[trigger] b[k]) ==> p[j] < p[k]
}

/// `b` holds the networks of `a`, strongest first, those of equal strength in
/// the order of `a`: what a stable sort by descending strength gives.
pub open spec fn strongest_first(a: Seq<NetworkView>, b: Seq<NetworkView>) -> bool {
    exists|p: Seq<int>| stable_order(a, b, p)
}

fn copy_network(n: &Network) -> (r: Network)
    ensures
        r@ == n@,
{
    Network {
        ssid: n.ssid.clone(),
        signal: n.signal,
        secured: n.secured,
        in_use: n.in_use,
        known: n.known,
    }
}

fn rank_of(n: &Network) -> (r: u16)
    ensures
        r as int == rank(n@),
{
    (if n.in_use { 256u16 } else { 0u16 }) + n.signal as u16
}

/// Orders the networks strongest first, keeping the order of those of equal
/// strength.
pub(crate) fn sort_strongest_first(a: &Vec<Network>) -> (b: Vec<Network>)
    ensures
        strongest_first(views(a@), views(b@)),
{
    let ghost av = views(a@);
    let mut b: Vec<Network> = Vec::new();
    let ghost mut p: Seq<int> = seq![];
    let n = a.len();
    for i in 0..n
        invariant
            n == a.len(),
            av == views(a@),
            stable_order(av.take(i as int), views(b@), p),
    {
        let x = copy_network(&a[i]);
        let rx = rank_of(&x);
        let ghost bv = views(b@);
        let ghost ai = av.take(i as int);
        let m = b.len();
        let mut pos: usize = 0;
        while pos < m && rank_of(&b[pos]) >= rx
            invariant
                m == b.len(),
                bv == views(b@),
                pos <= m,
                forall|j: int| 0 <= j < pos ==> rank(#[trigger] bv[j]) >= rx,
            decreases m - pos,
        {
            assert(bv[pos as int] == b@[pos as int]@);
            pos = pos + 1;
        }
        assert(forall|k: int| pos <= k < m ==> rank(#[trigger] bv[k]) < rx) by {
            if pos < m {
                assert(bv[pos as int] == b@[pos as int]@);
                assert forall|k: int| pos <= k < m implies rank(#[trigger] bv[k]) < rx by {
                    if k > pos {
                        assert(rank(bv[pos as int]) >= rank(bv[k]));
                    }
                }
            }
        }
        b.insert(pos, x);
        let ghost xv = av[i as int];
        let ghost nb = bv.insert(pos as int, xv);
        let ghost np = p.insert(pos as int, i as int);
        let ghost ai1 = av.take(i + 1);
        assert(views(b@) =~= nb);
        assert(ai1 =~= ai.push(xv));
        assert forall|j: int| 0 <= j < nb.len() implies 0 <= #[trigger] np[j] < ai1.len() && nb[j]
            == ai1[np[j]] by {
            if j < pos {
                assert(np[j] == p[j]);
                assert(nb[j] == bv[j]);
            } else if j > pos {
                assert(np[j] == p[j - 1]);
                assert(nb[j] == bv[j - 1]);
            }
        }
        assert forall|j: int, k: int| 0 <= j < k < nb.len() implies #[trigger] np[j]
            != #[trigger] np[k] by {
            if j < pos && k < pos {
            } else if j < pos && k == pos {
                assert(0 <= p[j] < i);
            } else if j < pos && k > pos {
                assert(p[j] != p[k - 1]);
            } else if j == pos {
                assert(0 <= p[k - 1] < i);
            } else {
                assert(p[j - 1] != p[k - 1]);
            }
        }
        assert forall|j: int, k: int| 0 <= j < k < nb.len() implies rank(#[trigger] nb[j])
            >= rank(#[trigger] nb[k]) by {
            if j < pos && k < pos {
            } else if j < pos && k == pos {
            } else if j < pos && k > pos {
                assert(rank(bv[j]) >= rank(bv[k - 1]));
            } else if j == pos {
            } else {
                assert(rank(bv[j - 1]) >= rank(bv[k - 1]));
            }
        }
        assert forall|j: int, k: int|
            0 <= j < k < nb.len() && rank(#[trigger] nb[j]) == rank(#[trigger] nb[k]) implies np[j]
            < np[k] by {
            if j < pos && k < pos {
            } else if j < pos && k == pos {
                assert(0 <= p[j] < i);
            } else if j < pos && k > pos {
                assert(rank(bv[j]) == rank(bv[k - 1]));
            } else if j == pos {
                assert(rank(bv[k - 1]) < rx);
            } else {
                assert(rank(bv[j - 1]) == rank(bv[k - 1]));
            }
        }
        proof {
            p = np;
        }
    }
    assert(av.take(n as int) =~= av);
    b
}

} // verus!

verus! {

/// What every entry of a scan table holds to: an SSID that is neither empty
/// nor `--`, and known exactly when `saved` holds its SSID.
pub open spec fn sound_entry(n: NetworkView, saved: Seq<Seq<char>>) -> bool {
    &&& n.ssid.len() > 0
    &&& n.ssid != "--"@
    &&& n.known == saved.contains(n.ssid)
}

/// Whether every entry of `t` is sound and no SSID occurs twice.
pub open spec fn sound_table(t: Seq<NetworkView>, saved: Seq<Seq<char>>) -> bool {
    &&& distinct_ssids(t)
    &&& forall|i: int| 0 <= i < t.len() ==> sound_entry(#[trigger] t[i], saved)
}

/// Every scan line keeps a table sound.
pub proof fn lemma_table_sound(ls: Seq<Seq<char>>, saved: Seq<Seq<char>>, t: Seq<NetworkView>)
    requires
        sound_table(t, saved),
    ensures
        sound_table(table_from(ls, saved, t), saved),
    decreases ls.len(),
{
    if ls.len() > 0 {
        let next = match parse_sighting(ls[0]) {
            Some(s) => merge(t, s, saved),
            None => t,
        };
        if let Some(s) = parse_sighting(ls[0]) {
            if has_ssid(t, s.ssid) {
                let i = choose|i: int| 0 <= i < t.len() && #[trigger] t[i].ssid == s.ssid;
                if s.in_use || (!t[i].in_use && s.signal > t[i].signal) {
                    let u = t.update(i, NetworkView { signal: s.signal, in_use: s.in_use, ..t[i] });
                    assert forall|a: int, b: int| 0 <= a < b < u.len() implies #[trigger] u[a].ssid
                        != #[trigger] u[b].ssid by {
                        assert(t[a].ssid != t[b].ssid);
                    }
                    assert forall|k: int| 0 <= k < u.len() implies sound_entry(#[trigger] u[k], saved) by {
                        assert(sound_entry(t[k], saved));
                    }
                }
            } else {
                let u = merge(t, s, saved);
                assert forall|a: int, b: int| 0 <= a < b < u.len() implies #[trigger] u[a].ssid
                    != #[trigger] u[b].ssid by {
                    if b < t.len() {
                        assert(t[a].ssid != t[b].ssid);
                    } else {
                        assert(u[a] == t[a]);
                    }
                }
                assert forall|k: int| 0 <= k < u.len() implies sound_entry(#[trigger] u[k], saved) by {
                    if k < t.len() {
                        assert(sound_entry(t[k], saved));
                    }
                }
            }
        }
        lemma_table_sound(ls.drop_first(), saved, next);
    }
}

/// Reordering strongest first keeps a table sound.
pub proof fn lemma_order_keeps_sound(a: Seq<NetworkView>, b: Seq<NetworkView>, saved: Seq<Seq<char>>)
    requires
        sound_table(a, saved),
        strongest_first(a, b),
    ensures
        sound_table(b, saved),
{
    let p = choose|p: Seq<int>| stable_order(a, b, p);
    assert forall|j: int, k: int| 0 <= j < k < b.len() implies #[trigger] b[j].ssid
        != #[trigger] b[k].ssid by {
        assert(p[j] != p[k]);
        if p[j] < p[k] {
            assert(a[p[j]].ssid != a[p[k]].ssid);
        } else {
            assert(a[p[k]].ssid != a[p[j]].ssid);
        }
    }
    assert forall|k: int| 0 <= k < b.len() implies sound_entry(#[trigger] b[k], saved) by {
        assert(b[k] == a[p[k]]);
        assert(sound_entry(a[p[k]], saved));
    }
}

/// The networks of the output of
/// `nmcli -t -f IN-USE,SSID,SIGNAL,SECURITY device wifi list`: one entry per
/// SSID, known where `saved` holds the SSID, strongest first.
pub fn parse_networks(output: &str, saved: &Vec<String>) -> (networks: Vec<Network>)
    ensures
        strongest_first(scan_table(lines(output@), strings(saved@)), views(networks@)),
        sound_table(views(networks@), strings(saved@)),
        forall|j: int, k: int|
            0 <= j < k < networks.len() ==> (#[trigger] networks[k].in_use
                ==> #[trigger] networks[j].in_use) && (networks[j].in_use == networks[k].in_use
                ==> networks[j].signal >= networks[k].signal),
{
    let ls = split_lines(&chars_of(output));
    let sv = chars_of_strings(saved);
    let table = build_table(&ls, 0, &sv);
    assert(texts(ls@).skip(0) =~= texts(ls@));
    proof {
        lemma_table_sound(lines(output@), strings(saved@), seq![]);
    }
    let networks = sort_strongest_first(&table);
    proof {
        lemma_order_keeps_sound(views(table@), views(networks@), strings(saved@));
        lemma_in_use_then_signal(views(table@), views(networks@));
        assert forall|j: int, k: int| 0 <= j < k < networks.len() implies (
            #[trigger] networks[k].in_use ==> #[trigger] networks[j].in_use) && (networks[j].in_use
            == networks[k].in_use ==> networks[j].signal >= networks[k].signal) by {
            assert(views(networks@)[j] == networks[j]@);
            assert(views(networks@)[k] == networks[k]@);
        }
    }
    networks
}

} // verus!

verus! {

/// The index of the entry for `ssid` in `t`.
pub open spec fn entry_index(t: Seq<NetworkView>, ssid: Seq<char>) -> int {
    choose|i: int| 0 <= i < t.len() && #[trigger] t[i].ssid == ssid
}

/// An in-use sighting is always taken: after it, its SSID's entry has its
/// signal and is in use.
pub proof fn lemma_in_use_sighting_taken(t: Seq<NetworkView>, s: Sighting, saved: Seq<Seq<char>>)
    requires
        s.in_use,
    ensures
        has_ssid(merge(t, s, saved), s.ssid),
        merge(t, s, saved)[entry_index(merge(t, s, saved), s.ssid)].ssid == s.ssid,
        distinct_ssids(t) ==> merge(t, s, saved)[entry_index(merge(t, s, saved), s.ssid)].signal
            == s.signal && merge(t, s, saved)[entry_index(merge(t, s, saved), s.ssid)].in_use,
{
    let u = merge(t, s, saved);
    if has_ssid(t, s.ssid) {
        let i = choose|i: int| 0 <= i < t.len() && #[trigger] t[i].ssid == s.ssid;
        assert(u[i].ssid == s.ssid);
        let k = entry_index(u, s.ssid);
        if distinct_ssids(t) {
            if k != i {
                if k < i {
                    assert(t[k].ssid != t[i].ssid);
                } else {
                    assert(t[i].ssid != t[k].ssid);
                }
            }
        }
    } else {
        assert(u[t.len() as int].ssid == s.ssid);
        let k = entry_index(u, s.ssid);
        if k < t.len() {
            assert(t[k].ssid == s.ssid);
        }
    }
}

/// Whether no scan line of `ls` marks a network in use.
pub open spec fn none_in_use(ls: Seq<Seq<char>>) -> bool {
    forall|i: int| 0 <= i < ls.len() ==> !(#[trigger] parse_sighting(ls[i]) matches Some(s) && s.in_use)
}

/// How a table grows along scan lines without in-use marks: entries stay in
/// place under their SSID, signals never drop, and each entry is at least as
/// strong as every sighting of its SSID.
proof fn lemma_table_strongest(ls: Seq<Seq<char>>, saved: Seq<Seq<char>>, t: Seq<NetworkView>)
    requires
        none_in_use(ls),
        distinct_ssids(t),
        forall|j: int| 0 <= j < t.len() ==> !(#[trigger] t[j]).in_use,
    ensures
        ({
            let r = table_from(ls, saved, t);
            &&& r.len() >= t.len()
            &&& forall|j: int| 0 <= j < r.len() ==> !(#[trigger] r[j]).in_use
            &&& forall|j: int| 0 <= j < t.len() ==> #[trigger] r[j].ssid == t[j].ssid && r[j].signal
                >= t[j].signal
            &&& forall|i: int, j: int|
                0 <= i < ls.len() && 0 <= j < r.len() && (#[trigger] parse_sighting(ls[i]) matches Some(
                    s,
                ) && s.ssid == #[trigger] r[j].ssid) ==> parse_sighting(ls[i])->0.signal <= r[j].signal
        }),
    decreases ls.len(),
{
    if ls.len() > 0 {
        let rest = ls.drop_first();
        let next = match parse_sighting(ls[0]) {
            Some(s) => merge(t, s, saved),
            None => t,
        };
        assert(none_in_use(rest)) by {
            assert forall|i: int| 0 <= i < rest.len() implies !(#[trigger] parse_sighting(rest[i]) matches Some(
                s,
            ) && s.in_use) by {
                assert(rest[i] == ls[i + 1]);
            }
        }
        // One step: entries keep their place, signals never drop, and the
        // sighting's SSID has an entry at least as strong.
        let mut k: int = -1;
        if let Some(s) = parse_sighting(ls[0]) {
            assert(!s.in_use) by {
                assert(!(parse_sighting(ls[0]) matches Some(s) && s.in_use));
            }
            if has_ssid(t, s.ssid) {
                k = choose|i: int| 0 <= i < t.len() && #[trigger] t[i].ssid == s.ssid;
            } else {
                k = t.len() as int;
            }
            assert(next[k].ssid == s.ssid && next[k].signal >= s.signal);
        }
        assert(next.len() >= t.len());
        assert(forall|j: int| 0 <= j < next.len() ==> !(#[trigger] next[j]).in_use);
        assert(forall|j: int| 0 <= j < t.len() ==> #[trigger] next[j].ssid == t[j].ssid && next[j].signal
            >= t[j].signal);
        assert(distinct_ssids(next)) by {
            assert forall|a: int, b: int| 0 <= a < b < next.len() implies #[trigger] next[a].ssid
                != #[trigger] next[b].ssid by {
                if b < t.len() {
                    assert(t[a].ssid != t[b].ssid);
                } else {
                    assert(next[a].ssid == t[a].ssid);
                }
            }
        }
        lemma_table_strongest(rest, saved, next);
        let r = table_from(ls, saved, t);
        assert(r == table_from(rest, saved, next));
        lemma_table_sound_distinct(rest, saved, next);
        assert(forall|j: int| 0 <= j < r.len() ==> !(#[trigger] r[j]).in_use);
        assert(r.len() >= t.len());
        assert forall|j: int| 0 <= j < t.len() implies #[trigger] r[j].ssid == t[j].ssid && r[j].signal
            >= t[j].signal by {
            assert(next[j].ssid == t[j].ssid && next[j].signal >= t[j].signal);
        }
        assert forall|i: int, j: int|
            0 <= i < ls.len() && 0 <= j < r.len() && (#[trigger] parse_sighting(ls[i]) matches Some(
                s,
            ) && s.ssid == #[trigger] r[j].ssid) implies parse_sighting(ls[i])->0.signal
            <= r[j].signal by {
            if i == 0 {
                let s = parse_sighting(ls[0])->0;
                assert(r[k].ssid == next[k].ssid);
                if j != k {
                    if j < k {
                        assert(r[j].ssid != r[k].ssid);
                    } else {
                        assert(r[k].ssid != r[j].ssid);
                    }
                }
            } else {
                assert(ls[i] == rest[i - 1]);
                assert(parse_sighting(rest[i - 1]) matches Some(s) && s.ssid == r[j].ssid);
            }
        }
    }
}

/// Scan lines keep the SSIDs of a table distinct.
proof fn lemma_table_sound_distinct(ls: Seq<Seq<char>>, saved: Seq<Seq<char>>, t: Seq<NetworkView>)
    requires
        distinct_ssids(t),
    ensures
        distinct_ssids(table_from(ls, saved, t)),
    decreases ls.len(),
{
    if ls.len() > 0 {
        let next = match parse_sighting(ls[0]) {
            Some(s) => merge(t, s, saved),
            None => t,
        };
        assert(distinct_ssids(next)) by {
            assert forall|a: int, b: int| 0 <= a < b < next.len() implies #[trigger] next[a].ssid
                != #[trigger] next[b].ssid by {
                if b < t.len() {
                    assert(t[a].ssid != t[b].ssid);
                    if let Some(s) = parse_sighting(ls[0]) {
                        if has_ssid(t, s.ssid) {
                            let i = choose|i: int| 0 <= i < t.len() && #[trigger] t[i].ssid == s.ssid;
                            assert(next[a].ssid == t[a].ssid);
                            assert(next[b].ssid == t[b].ssid);
                        }
                    }
                } else {
                    assert(next[a].ssid == t[a].ssid);
                }
            }
        }
        lemma_table_sound_distinct(ls.drop_first(), saved, next);
    }
}

/// Where no scan line marks a network in use, each network keeps the
/// strongest signal seen for its SSID.
pub proof fn lemma_strongest_signal_kept(ls: Seq<Seq<char>>, saved: Seq<Seq<char>>)
    requires
        none_in_use(ls),
    ensures
        forall|i: int, j: int|
            0 <= i < ls.len() && 0 <= j < scan_table(ls, saved).len() && (#[trigger] parse_sighting(
                ls[i],
            ) matches Some(s) && s.ssid == #[trigger] scan_table(ls, saved)[j].ssid)
                ==> parse_sighting(ls[i])->0.signal <= scan_table(ls, saved)[j].signal,
{
    lemma_table_strongest(ls, saved, seq![]);
}

} // verus!

verus! {

/// In an order strongest first, networks in use come before the others, and
/// among networks alike in that the stronger signal comes first.
pub proof fn lemma_in_use_then_signal(a: Seq<NetworkView>, b: Seq<NetworkView>)
    requires
        strongest_first(a, b),
    ensures
        forall|j: int, k: int|
            0 <= j < k < b.len() ==> (#[trigger] b[k].in_use ==> #[trigger] b[j].in_use) && (
            b[j].in_use == b[k].in_use ==> b[j].signal >= b[k].signal),
{
    let p = choose|p: Seq<int>| stable_order(a, b, p);
    assert forall|j: int, k: int| 0 <= j < k < b.len() implies (#[trigger] b[k].in_use
        ==> #[trigger] b[j].in_use) && (b[j].in_use == b[k].in_use ==> b[j].signal
        >= b[k].signal) by {
        assert(rank(b[j]) >= rank(b[k]));
    }
}

/// Every network that a scan line names has an entry in the table.
pub proof fn lemma_every_sighting_listed(ls: Seq<Seq<char>>, saved: Seq<Seq<char>>, t: Seq<NetworkView>)
    ensures
        forall|j: int| 0 <= j < t.len() ==> has_ssid(table_from(ls, saved, t), #[trigger] t[j].ssid),
        forall|i: int|
            0 <= i < ls.len() && #[trigger] parse_sighting(ls[i]) is Some ==> has_ssid(
                table_from(ls, saved, t),
                parse_sighting(ls[i])->0.ssid,
            ),
    decreases ls.len(),
{
    if ls.len() > 0 {
        let rest = ls.drop_first();
        let next = match parse_sighting(ls[0]) {
            Some(s) => merge(t, s, saved),
            None => t,
        };
        lemma_every_sighting_listed(rest, saved, next);
        let r = table_from(ls, saved, t);
        assert forall|j: int| 0 <= j < t.len() implies has_ssid(r, #[trigger] t[j].ssid) by {
            assert(next[j].ssid == t[j].ssid);
        }
        assert forall|i: int|
            0 <= i < ls.len() && #[trigger] parse_sighting(ls[i]) is Some implies has_ssid(
                r,
                parse_sighting(ls[i])->0.ssid,
            ) by {
            if i == 0 {
                let s = parse_sighting(ls[0])->0;
                if has_ssid(t, s.ssid) {
                    let k = choose|k: int| 0 <= k < t.len() && #[trigger] t[k].ssid == s.ssid;
                    assert(next[k].ssid == s.ssid);
                } else {
                    assert(next[t.len() as int].ssid == s.ssid);
                }
            } else {
                assert(rest[i - 1] == ls[i]);
            }
        }
    }
}

/// Every network that a scan line names is listed.
pub proof fn lemma_scan_lists_every_network(ls: Seq<Seq<char>>, saved: Seq<Seq<char>>, i: int)
    requires
        0 <= i < ls.len(),
        parse_sighting(ls[i]) is Some,
    ensures
        has_ssid(scan_table(ls, saved), parse_sighting(ls[i])->0.ssid),
{
    lemma_every_sighting_listed(ls, saved, seq![]);
}

} // verus!

verus! {

/// Whether the index `x` occurs in `p`.
pub open spec fn placed(p: Seq<int>, x: int) -> bool {
    exists|j: int| 0 <= j < p.len() && #[trigger] p[j] == x
}

/// An order strongest first uses every network of the table.
proof fn lemma_order_onto(a: Seq<NetworkView>, b: Seq<NetworkView>, p: Seq<int>)
    requires
        stable_order(a, b, p),
    ensures
        forall|x: int| 0 <= x < a.len() ==> #[trigger] placed(p, x),
{
    assert(p.no_duplicates()) by {
        assert forall|i: int, j: int| 0 <= i < p.len() && 0 <= j < p.len() && i != j implies p[i]
            != p[j] by {
            if i < j {
                assert(p[i] != p[j]);
            } else {
                assert(p[j] != p[i]);
            }
        }
    }
    p.unique_seq_to_set();
    vstd::seq_lib::seq_to_set_is_finite(p);
    vstd::set_lib::lemma_int_range(0, a.len() as int);
    let range = vstd::set_lib::set_int_range(0, a.len() as int);
    assert(p.to_set().subset_of(range)) by {
        assert forall|x: int| p.to_set().contains(x) implies range.contains(x) by {
            let j = choose|j: int| 0 <= j < p.len() && p[j] == x;
            assert(0 <= p[j] < a.len());
        }
    }
    vstd::set_lib::lemma_subset_equality(p.to_set(), range);
    assert forall|x: int| 0 <= x < a.len() implies #[trigger] placed(p, x) by {
        assert(range.contains(x));
        assert(p.to_set().contains(x));
    }
}

proof fn lemma_orders_agree_below(
    a: Seq<NetworkView>,
    b1: Seq<NetworkView>,
    p1: Seq<int>,
    b2: Seq<NetworkView>,
    p2: Seq<int>,
    n: int,
)
    requires
        stable_order(a, b1, p1),
        stable_order(a, b2, p2),
        0 <= n <= a.len(),
    ensures
        forall|i: int| 0 <= i < n ==> #[trigger] p1[i] == p2[i],
    decreases n,
{
    if n > 0 {
        lemma_orders_agree_below(a, b1, p1, b2, p2, n - 1);
        let j = n - 1;
        let x = p1[j];
        let y = p2[j];
        if x != y {
            lemma_order_onto(a, b1, p1);
            lemma_order_onto(a, b2, p2);
            assert(0 <= y < a.len());
            assert(placed(p1, y));
            assert(placed(p2, x));
            let m = choose|m: int| 0 <= m < b1.len() && #[trigger] p1[m] == y;
            let m2 = choose|m: int| 0 <= m < b2.len() && #[trigger] p2[m] == x;
            if m < j {
                assert(p2[m] == y);
                assert(p2[m] != p2[j]);
            }
            if m2 < j {
                assert(p1[m2] == x);
                assert(p1[m2] != p1[j]);
            }
            assert(m > j && m2 > j);
            assert(rank(b1[j]) >= rank(b1[m]));
            assert(rank(b2[j]) >= rank(b2[m2]));
            assert(b1[j] == a[x] && b1[m] == a[y] && b2[j] == a[y] && b2[m2] == a[x]);
            assert(p1[j] < p1[m]);
            assert(p2[j] < p2[m2]);
        }
    }
}

/// Only one order of a table is strongest first with ties kept in table
/// order: the list of networks is fully determined by the scan.
pub proof fn lemma_strongest_first_unique(a: Seq<NetworkView>, b1: Seq<NetworkView>, b2: Seq<NetworkView>)
    requires
        strongest_first(a, b1),
        strongest_first(a, b2),
    ensures
        b1 == b2,
{
    let p1 = choose|p: Seq<int>| stable_order(a, b1, p);
    let p2 = choose|p: Seq<int>| stable_order(a, b2, p);
    lemma_orders_agree_below(a, b1, p1, b2, p2, a.len() as int);
    assert forall|i: int| 0 <= i < b1.len() implies b1[i] == b2[i] by {
        assert(p1[i] == p2[i]);
    }
    assert(b1 =~= b2);
}

} // verus!

verus! {

/// `v` with no saved profile taken into account.
pub open spec fn unknown(v: NetworkView) -> NetworkView {
    NetworkView { known: false, ..v }
}

/// The networks of `s`, none of them known.
pub open spec fn all_unknown(s: Seq<NetworkView>) -> Seq<NetworkView> {
    s.map_values(|v: NetworkView| unknown(v))
}

/// Saved profiles only decide the `known` marks of a table: without them it is
/// the same table with every mark off.
pub proof fn lemma_table_without_saved(
    ls: Seq<Seq<char>>,
    saved: Seq<Seq<char>>,
    t: Seq<NetworkView>,
)
    requires
        distinct_ssids(t),
    ensures
        table_from(ls, seq![], all_unknown(t)) == all_unknown(table_from(ls, saved, t)),
    decreases ls.len(),
{
    if ls.len() > 0 {
        let u = all_unknown(t);
        let next = match parse_sighting(ls[0]) {
            Some(s) => merge(t, s, saved),
            None => t,
        };
        let next_u = match parse_sighting(ls[0]) {
            Some(s) => merge(u, s, seq![]),
            None => u,
        };
        if let Some(s) = parse_sighting(ls[0]) {
            if has_ssid(t, s.ssid) {
                let i = choose|i: int| 0 <= i < t.len() && #[trigger] t[i].ssid == s.ssid;
                assert(u[i].ssid == s.ssid);
                assert(has_ssid(u, s.ssid));
                let k = choose|k: int| 0 <= k < u.len() && #[trigger] u[k].ssid == s.ssid;
                assert(k == i) by {
                    assert(t[k].ssid == u[k].ssid);
                    if k < i {
                        assert(t[k].ssid != t[i].ssid);
                    } else if k > i {
                        assert(t[i].ssid != t[k].ssid);
                    }
                }
                assert(next_u =~= all_unknown(next));
            } else {
                assert(!has_ssid(u, s.ssid)) by {
                    if has_ssid(u, s.ssid) {
                        let k = choose|k: int| 0 <= k < u.len() && #[trigger] u[k].ssid == s.ssid;
                        assert(t[k].ssid == s.ssid);
                    }
                }
                assert(next_u =~= all_unknown(next));
            }
        } else {
            assert(next_u =~= all_unknown(next));
        }
        lemma_table_sound_distinct(seq![ls[0]], saved, t);
        assert(seq![ls[0]].drop_first() =~= Seq::<Seq<char>>::empty());
        assert(seq![ls[0]][0] == ls[0]);
        assert(table_from(Seq::<Seq<char>>::empty(), saved, next) == next);
        assert(table_from(seq![ls[0]], saved, t) == table_from(seq![ls[0]].drop_first(), saved, next));
        lemma_table_without_saved(ls.drop_first(), saved, next);
    }
}

/// Dropping the `known` marks keeps an order strongest first.
pub proof fn lemma_order_without_saved(a: Seq<NetworkView>, b: Seq<NetworkView>)
    requires
        strongest_first(a, b),
    ensures
        strongest_first(all_unknown(a), all_unknown(b)),
{
    let p = choose|p: Seq<int>| stable_order(a, b, p);
    let ua = all_unknown(a);
    let ub = all_unknown(b);
    assert forall|j: int| 0 <= j < ub.len() implies 0 <= #[trigger] p[j] < ua.len() && ub[j]
        == ua[p[j]] by {
        assert(b[j] == a[p[j]]);
    }
    assert forall|j: int, k: int| 0 <= j < k < ub.len() implies rank(#[trigger] ub[j]) >= rank(
        #[trigger] ub[k],
    ) by {
        assert(rank(b[j]) >= rank(b[k]));
    }
    assert forall|j: int, k: int|
        0 <= j < k < ub.len() && rank(#[trigger] ub[j]) == rank(#[trigger] ub[k]) implies p[j]
        < p[k] by {
        assert(rank(b[j]) == rank(b[k]));
    }
    assert(stable_order(ua, ub, p));
}

} // verus!

verus! {

/// Whether a scan line sights the network `ssid`.
pub open spec fn sights(line: Seq<char>, ssid: Seq<char>) -> bool {
    parse_sighting(line) matches Some(s) && s.ssid == ssid
}

/// Lines that do not sight `ssid` leave its entry as it is.
proof fn lemma_entry_untouched(ls: Seq<Seq<char>>, saved: Seq<Seq<char>>, t: Seq<NetworkView>, ssid: Seq<char>)
    requires
        distinct_ssids(t),
        forall|j: int| 0 <= j < ls.len() ==> !sights(#[trigger] ls[j], ssid),
    ensures
        table_from(ls, saved, t).len() >= t.len(),
        forall|k: int| 0 <= k < t.len() && #[trigger] t[k].ssid == ssid ==> table_from(ls, saved, t)[k] == t[k],
    decreases ls.len(),
{
    if ls.len() > 0 {
        let next = match parse_sighting(ls[0]) {
            Some(s) => merge(t, s, saved),
            None => t,
        };
        assert(!sights(ls[0], ssid));
        assert forall|k: int| 0 <= k < t.len() && #[trigger] t[k].ssid == ssid implies next[k] == t[k] by {
            if let Some(s) = parse_sighting(ls[0]) {
                if has_ssid(t, s.ssid) {
                    let i = choose|i: int| 0 <= i < t.len() && #[trigger] t[i].ssid == s.ssid;
                    assert(i != k);
                }
            }
        }
        lemma_table_sound_distinct(seq![ls[0]], saved, t);
        assert(seq![ls[0]].drop_first() =~= Seq::<Seq<char>>::empty());
        assert(seq![ls[0]][0] == ls[0]);
        assert(table_from(Seq::<Seq<char>>::empty(), saved, next) == next);
        assert(table_from(seq![ls[0]], saved, t) == table_from(seq![ls[0]].drop_first(), saved, next));
        let rest = ls.drop_first();
        assert forall|j: int| 0 <= j < rest.len() implies !sights(#[trigger] rest[j], ssid) by {
            assert(rest[j] == ls[j + 1]);
        }
        lemma_entry_untouched(rest, saved, next, ssid);
        assert(next.len() >= t.len());
        assert forall|k: int| 0 <= k < t.len() && #[trigger] t[k].ssid == ssid implies table_from(
            ls,
            saved,
            t,
        )[k] == t[k] by {
            assert(next[k] == t[k]);
            assert(next[k].ssid == ssid);
        }
    }
}

proof fn lemma_last_in_use_from(ls: Seq<Seq<char>>, saved: Seq<Seq<char>>, t: Seq<NetworkView>, i: int)
    requires
        distinct_ssids(t),
        0 <= i < ls.len(),
        parse_sighting(ls[i]) matches Some(s) && s.in_use,
        forall|j: int| i < j < ls.len() ==> !sights(#[trigger] ls[j], parse_sighting(ls[i])->0.ssid),
    ensures
        forall|k: int|
            0 <= k < table_from(ls, saved, t).len() && #[trigger] table_from(ls, saved, t)[k].ssid
                == parse_sighting(ls[i])->0.ssid ==> table_from(ls, saved, t)[k].signal
                == parse_sighting(ls[i])->0.signal && table_from(ls, saved, t)[k].in_use,
    decreases ls.len(),
{
    let s = parse_sighting(ls[i])->0;
    let next = match parse_sighting(ls[0]) {
        Some(x) => merge(t, x, saved),
        None => t,
    };
    let rest = ls.drop_first();
    lemma_table_sound_distinct(seq![ls[0]], saved, t);
    assert(seq![ls[0]].drop_first() =~= Seq::<Seq<char>>::empty());
    assert(seq![ls[0]][0] == ls[0]);
    assert(table_from(Seq::<Seq<char>>::empty(), saved, next) == next);
    assert(table_from(seq![ls[0]], saved, t) == table_from(seq![ls[0]].drop_first(), saved, next));
    assert(distinct_ssids(next));
    let r = table_from(ls, saved, t);
    assert(r == table_from(rest, saved, next));
    if i == 0 {
        lemma_in_use_sighting_taken(t, s, saved);
        let e = entry_index(next, s.ssid);
        assert forall|j: int| 0 <= j < rest.len() implies !sights(#[trigger] rest[j], s.ssid) by {
            assert(rest[j] == ls[j + 1]);
        }
        lemma_entry_untouched(rest, saved, next, s.ssid);
        lemma_table_sound_distinct(rest, saved, next);
        assert forall|k: int| 0 <= k < r.len() && #[trigger] r[k].ssid == s.ssid implies r[k].signal
            == s.signal && r[k].in_use by {
            assert(r[e] == next[e]);
            if k != e {
                if k < e {
                    assert(r[k].ssid != r[e].ssid);
                } else {
                    assert(r[e].ssid != r[k].ssid);
                }
            }
        }
    } else {
        assert(rest[i - 1] == ls[i]);
        assert forall|j: int| i - 1 < j < rest.len() implies !sights(
            #[trigger] rest[j],
            parse_sighting(rest[i - 1])->0.ssid,
        ) by {
            assert(rest[j] == ls[j + 1]);
        }
        lemma_last_in_use_from(rest, saved, next, i - 1);
    }
}

/// A network whose last sighting is in use is listed in use, with that
/// sighting's signal.
pub proof fn lemma_last_in_use_kept(ls: Seq<Seq<char>>, saved: Seq<Seq<char>>, i: int)
    requires
        0 <= i < ls.len(),
        parse_sighting(ls[i]) matches Some(s) && s.in_use,
        forall|j: int| i < j < ls.len() ==> !sights(#[trigger] ls[j], parse_sighting(ls[i])->0.ssid),
    ensures
        has_ssid(scan_table(ls, saved), parse_sighting(ls[i])->0.ssid),
        forall|k: int|
            0 <= k < scan_table(ls, saved).len() && #[trigger] scan_table(ls, saved)[k].ssid
                == parse_sighting(ls[i])->0.ssid ==> scan_table(ls, saved)[k].signal
                == parse_sighting(ls[i])->0.signal && scan_table(ls, saved)[k].in_use,
{
    lemma_last_in_use_from(ls, saved, seq![], i);
    lemma_scan_lists_every_network(ls, saved, i);
}

} // verus!

verus! {

/// Later scan lines never take an entry out of use, and never change its
/// SSID or its security.
proof fn lemma_in_use_stays(ls: Seq<Seq<char>>, saved: Seq<Seq<char>>, t: Seq<NetworkView>)
    requires
        distinct_ssids(t),
    ensures
        table_from(ls, saved, t).len() >= t.len(),
        forall|k: int|
            0 <= k < t.len() ==> #[trigger] table_from(ls, saved, t)[k].ssid == t[k].ssid && (
            t[k].in_use ==> table_from(ls, saved, t)[k].in_use) && table_from(ls, saved, t)[k].secured
                == t[k].secured,
    decreases ls.len(),
{
    if ls.len() > 0 {
        let next = match parse_sighting(ls[0]) {
            Some(s) => merge(t, s, saved),
            None => t,
        };
        lemma_table_sound_distinct(seq![ls[0]], saved, t);
        assert(seq![ls[0]].drop_first() =~= Seq::<Seq<char>>::empty());
        assert(seq![ls[0]][0] == ls[0]);
        assert(table_from(Seq::<Seq<char>>::empty(), saved, next) == next);
        assert(table_from(seq![ls[0]], saved, t) == table_from(seq![ls[0]].drop_first(), saved, next));
        assert forall|k: int| 0 <= k < t.len() implies #[trigger] next[k].ssid == t[k].ssid && (
        t[k].in_use ==> next[k].in_use) && next[k].secured == t[k].secured by {
            if let Some(s) = parse_sighting(ls[0]) {
                if has_ssid(t, s.ssid) {
                    let i = choose|i: int| 0 <= i < t.len() && #[trigger] t[i].ssid == s.ssid;
                }
            }
        }
        assert(next.len() >= t.len());
        lemma_in_use_stays(ls.drop_first(), saved, next);
        let r = table_from(ls, saved, t);
        assert(r == table_from(ls.drop_first(), saved, next));
        assert forall|k: int| 0 <= k < t.len() implies #[trigger] r[k].ssid == t[k].ssid && (t[k].in_use
            ==> r[k].in_use) && r[k].secured == t[k].secured by {
            assert(next[k].ssid == t[k].ssid && (t[k].in_use ==> next[k].in_use) && next[k].secured
                == t[k].secured);
            let r2 = table_from(ls.drop_first(), saved, next);
            assert(r2[k].ssid == next[k].ssid);
            assert(r2 == r);
        }
    }
}

proof fn lemma_seen_in_use_from(ls: Seq<Seq<char>>, saved: Seq<Seq<char>>, t: Seq<NetworkView>, i: int)
    requires
        distinct_ssids(t),
        0 <= i < ls.len(),
        parse_sighting(ls[i]) matches Some(s) && s.in_use,
    ensures
        forall|k: int|
            0 <= k < table_from(ls, saved, t).len() && #[trigger] table_from(ls, saved, t)[k].ssid
                == parse_sighting(ls[i])->0.ssid ==> table_from(ls, saved, t)[k].in_use,
    decreases ls.len(),
{
    let s = parse_sighting(ls[i])->0;
    let next = match parse_sighting(ls[0]) {
        Some(x) => merge(t, x, saved),
        None => t,
    };
    let rest = ls.drop_first();
    lemma_table_sound_distinct(seq![ls[0]], saved, t);
    assert(seq![ls[0]].drop_first() =~= Seq::<Seq<char>>::empty());
    assert(seq![ls[0]][0] == ls[0]);
    assert(table_from(Seq::<Seq<char>>::empty(), saved, next) == next);
    assert(table_from(seq![ls[0]], saved, t) == table_from(seq![ls[0]].drop_first(), saved, next));
    let r = table_from(ls, saved, t);
    assert(r == table_from(rest, saved, next));
    if i == 0 {
        lemma_in_use_sighting_taken(t, s, saved);
        let e = entry_index(next, s.ssid);
        lemma_in_use_stays(rest, saved, next);
        lemma_table_sound_distinct(rest, saved, next);
        assert forall|k: int| 0 <= k < r.len() && #[trigger] r[k].ssid == s.ssid implies r[k].in_use by {
            assert(r[e].ssid == next[e].ssid);
            if k != e {
                if k < e {
                    assert(r[k].ssid != r[e].ssid);
                } else {
                    assert(r[e].ssid != r[k].ssid);
                }
            }
        }
    } else {
        assert(rest[i - 1] == ls[i]);
        lemma_seen_in_use_from(rest, saved, next, i - 1);
    }
}

/// The active entry is kept: a network sighted in use on any scan line is
/// listed in use.
pub proof fn lemma_active_entry_kept(ls: Seq<Seq<char>>, saved: Seq<Seq<char>>, i: int)
    requires
        0 <= i < ls.len(),
        parse_sighting(ls[i]) matches Some(s) && s.in_use,
    ensures
        has_ssid(scan_table(ls, saved), parse_sighting(ls[i])->0.ssid),
        forall|k: int|
            0 <= k < scan_table(ls, saved).len() && #[trigger] scan_table(ls, saved)[k].ssid
                == parse_sighting(ls[i])->0.ssid ==> scan_table(ls, saved)[k].in_use,
{
    lemma_seen_in_use_from(ls, saved, seq![], i);
    lemma_scan_lists_every_network(ls, saved, i);
}

} // verus!

verus! {

/// White space at the end of a scan line changes nothing it says.
pub proof fn lemma_sighting_trailing_space(l: Seq<char>, c: char)
    requires
        is_space(c),
    ensures
        parse_sighting(l.push(c)) == parse_sighting(l),
{
    assert(c != ':');
    lemma_splitn_push(l, c, 5, ':', seq![], seq![]);
    let p = splitn(l, 5, ':');
    let q = splitn(l.push(c), 5, ':');
    assert(q.len() == p.len());
    if p.len() >= 4 {
        let last = p.len() - 1;
        assert(q[0] == p[0] && q[1] == p[1] && q[2] == p[2]);
        if last == 3 {
            lemma_trim_trailing_space(p[3], c);
            assert(q[3] == p[3].push(c));
        } else {
            assert(q[3] == p[3]);
        }
    }
}

/// A scan line reads the same without a carriage return at its end.
pub proof fn lemma_sighting_strip_cr(l: Seq<char>)
    ensures
        parse_sighting(strip_cr(l)) == parse_sighting(l),
{
    if l.len() > 0 && l.last() == '\r' {
        assert(l.drop_last().push('\r') =~= l);
        lemma_sighting_trailing_space(l.drop_last(), '\r');
    }
}

/// An empty line names no network.
proof fn lemma_empty_line_no_sighting()
    ensures
        parse_sighting(Seq::<char>::empty()) is None,
{
    let e = Seq::<char>::empty();
    assert(splitn_from(e, 5, ':', seq![], seq![]) == Seq::<Seq<char>>::empty().push(Seq::<char>::empty()));
}

/// Joining scan lines with `\n` and splitting the text into lines again
/// gives the same table: the only changes, a dropped carriage return and a
/// dropped empty last line, name no network differently.
pub proof fn lemma_table_of_rejoined_lines(ls: Seq<Seq<char>>, saved: Seq<Seq<char>>, t: Seq<NetworkView>)
    requires
        forall|i: int| 0 <= i < ls.len() ==> one_line(#[trigger] ls[i]),
    ensures
        table_from(lines(join(ls, seq!['\n'])), saved, t) == table_from(ls, saved, t),
    decreases ls.len(),
{
    if ls.len() == 0 {
        assert(join(ls, seq!['\n']) == Seq::<char>::empty());
        assert(lines(Seq::<char>::empty()) == Seq::<Seq<char>>::empty());
    } else if ls.len() == 1 {
        let l = ls[0];
        assert(join(ls, seq!['\n']) == l);
        assert(one_line(l));
        lemma_lines_of_one_line(l);
        assert(ls.drop_first() =~= Seq::<Seq<char>>::empty());
        if l.len() > 0 {
            assert(seq![l][0] == l);
            assert(seq![l].drop_first() =~= Seq::<Seq<char>>::empty());
        } else {
            lemma_empty_line_no_sighting();
            assert(l =~= Seq::<char>::empty());
        }
    } else {
        let l = ls[0];
        let rest = ls.drop_first();
        assert(ls =~= seq![l] + rest);
        assert(one_line(l));
        lemma_lines_of_joined(l, rest);
        let tail = lines(join(rest, seq!['\n']));
        let all = seq![strip_cr(l)] + tail;
        assert(all[0] == strip_cr(l));
        assert(all.drop_first() =~= tail);
        lemma_sighting_strip_cr(l);
        let next = match parse_sighting(l) {
            Some(s) => merge(t, s, saved),
            None => t,
        };
        assert(table_from(all, saved, t) == table_from(tail, saved, next));
        assert forall|i: int| 0 <= i < rest.len() implies one_line(#[trigger] rest[i]) by {
            assert(rest[i] == ls[i + 1]);
        }
        lemma_table_of_rejoined_lines(rest, saved, next);
    }
}

} // verus!

verus! {

/// Whether a line of `nmcli -t -f IN-USE,SSID,SIGNAL,SECURITY device wifi
/// list` names the network `ssid`: it has at least four `:`-separated fields
/// and its second, trimmed, is `ssid`, which is neither empty nor `--`.
pub open spec fn line_names(line: Seq<char>, ssid: Seq<char>) -> bool {
    let parts = splitn(line, 5, ':');
    &&& parts.len() >= 4
    &&& trim(parts[1]) == ssid
    &&& ssid.len() > 0
    &&& ssid != "--"@
}

/// The trimmed SECURITY field of such a line.
pub open spec fn security_field(line: Seq<char>) -> Seq<char> {
    trim(splitn(line, 5, ':')[3])
}

proof fn lemma_names_is_sighting(line: Seq<char>, ssid: Seq<char>)
    ensures
        sights(line, ssid) == line_names(line, ssid),
        line_names(line, ssid) ==> parse_sighting(line)->0.secured == (security_field(line).len() > 0
            && security_field(line) != "--"@),
{
}

proof fn lemma_first_sighting_from(
    ls: Seq<Seq<char>>,
    saved: Seq<Seq<char>>,
    t: Seq<NetworkView>,
    i: int,
    ssid: Seq<char>,
)
    requires
        distinct_ssids(t),
        !has_ssid(t, ssid),
        0 <= i < ls.len(),
        sights(ls[i], ssid),
        forall|j: int| 0 <= j < i ==> !sights(#[trigger] ls[j], ssid),
    ensures
        forall|k: int|
            0 <= k < table_from(ls, saved, t).len() && #[trigger] table_from(ls, saved, t)[k].ssid == ssid
                ==> table_from(ls, saved, t)[k].secured == parse_sighting(ls[i])->0.secured,
    decreases ls.len(),
{
    let next = match parse_sighting(ls[0]) {
        Some(x) => merge(t, x, saved),
        None => t,
    };
    let rest = ls.drop_first();
    lemma_table_sound_distinct(seq![ls[0]], saved, t);
    assert(seq![ls[0]].drop_first() =~= Seq::<Seq<char>>::empty());
    assert(seq![ls[0]][0] == ls[0]);
    assert(table_from(Seq::<Seq<char>>::empty(), saved, next) == next);
    assert(table_from(seq![ls[0]], saved, t) == table_from(seq![ls[0]].drop_first(), saved, next));
    let r = table_from(ls, saved, t);
    assert(r == table_from(rest, saved, next));
    if i == 0 {
        let s = parse_sighting(ls[0])->0;
        let e = t.len() as int;
        assert(s.ssid == ssid);
        assert(next == merge(t, s, saved));
        assert(next.len() == t.len() + 1);
        assert(next[e].ssid == ssid && next[e].secured == s.secured);
        lemma_in_use_stays(rest, saved, next);
        lemma_table_sound_distinct(rest, saved, next);
        let r2 = table_from(rest, saved, next);
        assert(0 <= e < next.len());
        assert(r2[e].ssid == next[e].ssid);
        assert(r2[e].secured == next[e].secured);
        assert forall|k: int| 0 <= k < r.len() && #[trigger] r[k].ssid == ssid implies r[k].secured
            == s.secured by {
            if k != e {
                if k < e {
                    assert(r[k].ssid != r[e].ssid);
                } else {
                    assert(r[e].ssid != r[k].ssid);
                }
            }
        }
    } else {
        assert(!sights(ls[0], ssid));
        assert(!has_ssid(next, ssid)) by {
            if has_ssid(next, ssid) {
                let k = choose|k: int| 0 <= k < next.len() && #[trigger] next[k].ssid == ssid;
                if let Some(x) = parse_sighting(ls[0]) {
                    if has_ssid(t, x.ssid) {
                        let c = choose|c: int| 0 <= c < t.len() && #[trigger] t[c].ssid == x.ssid;
                        assert(t[k].ssid == next[k].ssid);
                    } else if k < t.len() {
                        assert(t[k].ssid == next[k].ssid);
                    }
                }
            }
        }
        assert(rest[i - 1] == ls[i]);
        assert forall|j: int| 0 <= j < i - 1 implies !sights(#[trigger] rest[j], ssid) by {
            assert(rest[j] == ls[j + 1]);
        }
        lemma_first_sighting_from(rest, saved, next, i - 1, ssid);
    }
}

/// A listed network is secured exactly when the SECURITY field of the first
/// scan line naming it, trimmed, is neither empty nor `--`: any other
/// security text, whatever it says, counts as secured.
pub proof fn lemma_secured_by_first_line(ls: Seq<Seq<char>>, saved: Seq<Seq<char>>, i: int, ssid: Seq<char>)
    requires
        0 <= i < ls.len(),
        line_names(ls[i], ssid),
        forall|j: int| 0 <= j < i ==> !line_names(#[trigger] ls[j], ssid),
    ensures
        has_ssid(scan_table(ls, saved), ssid),
        forall|k: int|
            0 <= k < scan_table(ls, saved).len() && #[trigger] scan_table(ls, saved)[k].ssid == ssid
                ==> scan_table(ls, saved)[k].secured == (security_field(ls[i]).len() > 0
                && security_field(ls[i]) != "--"@),
{
    lemma_names_is_sighting(ls[i], ssid);
    assert forall|j: int| 0 <= j < i implies !sights(#[trigger] ls[j], ssid) by {
        lemma_names_is_sighting(ls[j], ssid);
    }
    lemma_first_sighting_from(ls, saved, seq![], i, ssid);
    lemma_scan_lists_every_network(ls, saved, i);
}

} // verus!

verus! {

/// Whether such a line marks its network in use: its first field, trimmed,
/// is `*`.
pub open spec fn in_use_field(line: Seq<char>) -> bool {
    trim(splitn(line, 5, ':')[0]) == "*"@
}

/// The signal such a line gives: its third field, trimmed, as a number up to
/// 255, or 0 where it is none.
pub open spec fn signal_field(line: Seq<char>) -> u8 {
    match parse_unsigned(trim(splitn(line, 5, ':')[2]), 255) {
        Some(v) => v as u8,
        None => 0,
    }
}

proof fn lemma_names_reads(line: Seq<char>, ssid: Seq<char>)
    requires
        line_names(line, ssid),
    ensures
        parse_sighting(line) == Some(
            Sighting {
                in_use: in_use_field(line),
                ssid: ssid,
                signal: signal_field(line),
                secured: security_field(line).len() > 0 && security_field(line) != "--"@,
            },
        ),
{
}

/// Whether a line before `start` names `ssid` and marks it in use.
pub open spec fn seen_in_use_before(all: Seq<Seq<char>>, start: int, ssid: Seq<char>) -> bool {
    exists|j: int| 0 <= j < start && line_names(#[trigger] all[j], ssid) && in_use_field(all[j])
}

/// Whether a line before `start` names `ssid` with the signal `signal`.
pub open spec fn seen_with_signal_before(all: Seq<Seq<char>>, start: int, ssid: Seq<char>, signal: u8) -> bool {
    exists|j: int| 0 <= j < start && line_names(#[trigger] all[j], ssid) && signal_field(all[j]) == signal
}

/// Whether every entry of `t` comes from the lines before `start`: its
/// signal is one a line naming it gave, and it is in use only where a line
/// naming it marked it so.
pub open spec fn drawn_from(all: Seq<Seq<char>>, start: int, t: Seq<NetworkView>) -> bool {
    forall|k: int|
        0 <= k < t.len() ==> seen_with_signal_before(all, start, #[trigger] t[k].ssid, t[k].signal)
            && (t[k].in_use ==> seen_in_use_before(all, start, t[k].ssid))
}

proof fn lemma_next_drawn(all: Seq<Seq<char>>, start: int, saved: Seq<Seq<char>>, t: Seq<NetworkView>, k: int)
    requires
        0 <= start < all.len(),
        drawn_from(all, start, t),
        0 <= k < (match parse_sighting(all[start]) {
            Some(s) => merge(t, s, saved),
            None => t,
        }).len(),
    ensures
        ({
            let next = match parse_sighting(all[start]) {
                Some(s) => merge(t, s, saved),
                None => t,
            };
            seen_with_signal_before(all, start + 1, next[k].ssid, next[k].signal) && (next[k].in_use
                ==> seen_in_use_before(all, start + 1, next[k].ssid))
        }),
{
    let l = all[start];
    let next = match parse_sighting(l) {
        Some(s) => merge(t, s, saved),
        None => t,
    };
    let mut fresh = false;
    if let Some(s) = parse_sighting(l) {
        lemma_names_is_sighting(l, s.ssid);
        lemma_names_reads(l, s.ssid);
        if has_ssid(t, s.ssid) {
            let i = choose|i: int| 0 <= i < t.len() && #[trigger] t[i].ssid == s.ssid;
            fresh = k == i && (s.in_use || (!t[i].in_use && s.signal > t[i].signal));
        } else {
            fresh = k == t.len();
        }
        if fresh {
            assert(next[k].ssid == s.ssid && next[k].signal == s.signal && next[k].in_use == s.in_use);
            assert(line_names(all[start], s.ssid));
        }
    }
    if !fresh {
        assert(k < t.len() && next[k] == t[k]);
        assert(seen_with_signal_before(all, start, t[k].ssid, t[k].signal));
        let j = choose|j: int|
            0 <= j < start && line_names(#[trigger] all[j], t[k].ssid) && signal_field(all[j])
                == t[k].signal;
        assert(0 <= j < start + 1);
        if t[k].in_use {
            let j2 = choose|j: int|
                0 <= j < start && line_names(#[trigger] all[j], t[k].ssid) && in_use_field(all[j]);
            assert(0 <= j2 < start + 1);
        }
    }
}

proof fn lemma_drawn_from(all: Seq<Seq<char>>, start: int, saved: Seq<Seq<char>>, t: Seq<NetworkView>)
    requires
        0 <= start <= all.len(),
        drawn_from(all, start, t),
    ensures
        drawn_from(all, all.len() as int, table_from(all.skip(start), saved, t)),
    decreases all.len() - start,
{
    if start == all.len() {
        assert(all.skip(start) =~= Seq::<Seq<char>>::empty());
    } else {
        let l = all[start];
        assert(all.skip(start)[0] == l);
        assert(all.skip(start).drop_first() =~= all.skip(start + 1));
        let next = match parse_sighting(l) {
            Some(s) => merge(t, s, saved),
            None => t,
        };
        assert forall|k: int| 0 <= k < next.len() implies seen_with_signal_before(
            all,
            start + 1,
            #[trigger] next[k].ssid,
            next[k].signal,
        ) && (next[k].in_use ==> seen_in_use_before(all, start + 1, next[k].ssid)) by {
            lemma_next_drawn(all, start, saved, t, k);
        }
        lemma_drawn_from(all, start + 1, saved, next);
    }
}

/// Every listed network's signal and in-use mark come from the scan lines:
/// its signal is the one some line naming it gave, and it is in use only if
/// some line naming it marks it `*`.
pub proof fn lemma_entries_from_lines(ls: Seq<Seq<char>>, saved: Seq<Seq<char>>, k: int)
    requires
        0 <= k < scan_table(ls, saved).len(),
    ensures
        exists|j: int|
            0 <= j < ls.len() && line_names(#[trigger] ls[j], scan_table(ls, saved)[k].ssid)
                && signal_field(ls[j]) == scan_table(ls, saved)[k].signal,
        scan_table(ls, saved)[k].in_use ==> exists|j: int|
            0 <= j < ls.len() && line_names(#[trigger] ls[j], scan_table(ls, saved)[k].ssid)
                && in_use_field(ls[j]),
{
    assert(ls.skip(0) =~= ls);
    lemma_drawn_from(ls, 0, saved, seq![]);
    let r = scan_table(ls, saved);
    assert(seen_with_signal_before(ls, ls.len() as int, r[k].ssid, r[k].signal));
}

/// A network that some line names and marks `*` is listed in use.
pub proof fn lemma_marked_line_listed_in_use(ls: Seq<Seq<char>>, saved: Seq<Seq<char>>, i: int, ssid: Seq<char>)
    requires
        0 <= i < ls.len(),
        line_names(ls[i], ssid),
        in_use_field(ls[i]),
    ensures
        has_ssid(scan_table(ls, saved), ssid),
        forall|k: int|
            0 <= k < scan_table(ls, saved).len() && #[trigger] scan_table(ls, saved)[k].ssid == ssid
                ==> scan_table(ls, saved)[k].in_use,
{
    lemma_names_reads(ls[i], ssid);
    lemma_active_entry_kept(ls, saved, i);
}

/// Where no line marks a network `*`, each listed network's signal is at
/// least that of every line naming it.
pub proof fn lemma_strongest_line_kept(ls: Seq<Seq<char>>, saved: Seq<Seq<char>>, i: int, k: int)
    requires
        forall|j: int| 0 <= j < ls.len() ==> !in_use_field(#[trigger] ls[j]),
        0 <= i < ls.len(),
        0 <= k < scan_table(ls, saved).len(),
        line_names(ls[i], scan_table(ls, saved)[k].ssid),
    ensures
        signal_field(ls[i]) <= scan_table(ls, saved)[k].signal,
{
    assert forall|j: int| 0 <= j < ls.len() implies !(#[trigger] parse_sighting(ls[j]) matches Some(s)
        && s.in_use) by {
        if let Some(s) = parse_sighting(ls[j]) {
            lemma_names_is_sighting(ls[j], s.ssid);
            lemma_names_reads(ls[j], s.ssid);
            assert(!in_use_field(ls[j]));
        }
    }
    lemma_names_reads(ls[i], scan_table(ls, saved)[k].ssid);
    lemma_strongest_signal_kept(ls, saved);
}

} // verus!
