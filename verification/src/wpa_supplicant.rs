//! The logic of the `wpa_supplicant` front end: reading the output of
//! `iw <interface> scan` and `iw dev`, and writing a `wpa_supplicant`
//! configuration.

use vstd::prelude::*;
use crate::text::{
    contains, ends_with, equals, first_of_lines, lemma_trim_end_matches_prefix,
    lemma_words_have_no_ws, is_ws, lemma_split_on_nonempty, lemma_trim_strip_cr, split_on,
    strip_cr, trim_is_idempotent, blank, unspaced, lemma_first_of_lines_skip,
    lemma_trim_start_blank_prefix, lemma_words_blank, lemma_words_concat, lemma_words_single,
    trim_start, trim_end, lemma_lines_concat, lemma_lines_single, lemma_replace_all_removes_pattern, replace_all, replace_text,
    bounds_match, chars_of, has_prefix, line_bounds, lines, starts_with, text_between, trim,
    trim_bounds, trim_end_matches, trim_end_matches_bound, word_bounds, words,
};

verus! {

/// A network seen in a scan.
#[derive(Debug, Clone)]
pub struct WifiNetwork {
    pub ssid: String,
    pub signal: String,
    pub bssid: String,
    pub frequency: String,
}

/// A scanned network as plain text fields.
pub struct NetworkView {
    pub ssid: Seq<char>,
    pub signal: Seq<char>,
    pub bssid: Seq<char>,
    pub frequency: Seq<char>,
}

impl View for WifiNetwork {
    type V = NetworkView;

    open spec fn view(&self) -> NetworkView {
        NetworkView {
            ssid: self.ssid@,
            signal: self.signal@,
            bssid: self.bssid@,
            frequency: self.frequency@,
        }
    }
}

pub open spec fn network_views(v: Seq<WifiNetwork>) -> Seq<NetworkView> {
    v.map_values(|n: WifiNetwork| n@)
}

pub open spec fn current_view(c: Option<WifiNetwork>) -> Option<NetworkView> {
    match c {
        Some(n) => Some(n@),
        None => None,
    }
}

/// `nets` with the network under construction appended, when there is one
/// and its SSID is not empty.
pub open spec fn flush(nets: Seq<NetworkView>, cur: Option<NetworkView>) -> Seq<NetworkView> {
    match cur {
        Some(n) => if n.ssid.len() > 0 {
            nets.push(n)
        } else {
            nets
        },
        None => nets,
    }
}

/// The network started by a `BSS ` line whose trimmed text is `t`: its BSSID
/// is the second word, without trailing `(on`.
pub open spec fn bss_start(t: Seq<char>) -> Option<NetworkView> {
    let ws = words(t);
    if ws.len() >= 2 {
        Some(
            NetworkView {
                ssid: Seq::empty(),
                signal: Seq::empty(),
                bssid: trim_end_matches(ws[1], "(on"@),
                frequency: Seq::empty(),
            },
        )
    } else {
        None
    }
}

/// The effect of one line of `iw scan` output on the networks found so far
/// and the one under construction.
pub open spec fn scan_step(
    nets: Seq<NetworkView>,
    cur: Option<NetworkView>,
    line: Seq<char>,
) -> (Seq<NetworkView>, Option<NetworkView>) {
    let t = trim(line);
    let (nets1, cur1) = if starts_with(t, "BSS "@) {
        (flush(nets, cur), bss_start(t))
    } else {
        (nets, cur)
    };
    let cur2 = match cur1 {
        Some(n) if starts_with(t, "SSID: "@) => Some(
            NetworkView {
                ssid: t.skip("SSID: "@.len() as int),
                signal: n.signal,
                bssid: n.bssid,
                frequency: n.frequency,
            },
        ),
        _ => cur1,
    };
    let cur3 = match cur2 {
        Some(n) if starts_with(t, "signal: "@) => Some(
            NetworkView {
                ssid: n.ssid,
                signal: t.skip("signal: "@.len() as int),
                bssid: n.bssid,
                frequency: n.frequency,
            },
        ),
        _ => cur2,
    };
    let cur4 = match cur3 {
        Some(n) if starts_with(t, "freq: "@) => Some(
            NetworkView {
                ssid: n.ssid,
                signal: n.signal,
                bssid: n.bssid,
                frequency: t.skip("freq: "@.len() as int) + " MHz"@,
            },
        ),
        _ => cur3,
    };
    (nets1, cur4)
}

/// The state after reading the lines `ls` in order.
pub open spec fn scan_state(ls: Seq<Seq<char>>) -> (Seq<NetworkView>, Option<NetworkView>)
    decreases ls.len(),
{
    if ls.len() == 0 {
        (Seq::empty(), None)
    } else {
        let prev = scan_state(ls.drop_last());
        scan_step(prev.0, prev.1, ls.last())
    }
}

/// The networks that the output of `iw <interface> scan` lists: one per
/// `BSS` block, in order, each with the values of its `SSID: `, `signal: `
/// and `freq: ` lines (the last of each kind), and only those whose SSID is
/// not empty.
pub open spec fn scan_networks_of(output: Seq<char>) -> Seq<NetworkView> {
    let st = scan_state(lines(output));
    flush(st.0, st.1)
}

proof fn lemma_scan_state_ssids(ls: Seq<Seq<char>>)
    ensures
        ({
            let nets = scan_state(ls).0;
            forall|i: int| 0 <= i < nets.len() ==> #[trigger] nets[i].ssid.len() > 0
        }),
    decreases ls.len(),
{
    if ls.len() > 0 {
        let prev = scan_state(ls.drop_last());
        lemma_scan_state_ssids(ls.drop_last());
        let f = flush(prev.0, prev.1);
        assert forall|i: int| 0 <= i < f.len() implies #[trigger] f[i].ssid.len() > 0 by {
            if i < prev.0.len() {
                assert(f[i] == prev.0[i]);
            }
        }
    }
}

/// Every network read from a scan has a non-empty SSID.
pub proof fn scanned_networks_have_ssid(output: Seq<char>)
    ensures
        ({
            let nets = scan_networks_of(output);
            forall|i: int| 0 <= i < nets.len() ==> #[trigger] nets[i].ssid.len() > 0
        }),
{
    let st = scan_state(lines(output));
    lemma_scan_state_ssids(lines(output));
    let f = flush(st.0, st.1);
    assert forall|i: int| 0 <= i < f.len() implies #[trigger] f[i].ssid.len() > 0 by {
        if i < st.0.len() {
            assert(f[i] == st.0[i]);
        }
    }
}

/// The shape of the fields of a scanned network: the BSSID holds no
/// whitespace and does not end in `(on`; the frequency is empty or ends in
/// ` MHz`.
pub open spec fn well_formed_network(n: NetworkView) -> bool {
    &&& forall|j: int| 0 <= j < n.bssid.len() ==> !is_ws(#[trigger] n.bssid[j])
    &&& !ends_with(n.bssid, "(on"@)
    &&& n.frequency.len() == 0 || ends_with(n.frequency, " MHz"@)
}

pub open spec fn well_formed_state(st: (Seq<NetworkView>, Option<NetworkView>)) -> bool {
    &&& forall|i: int| 0 <= i < st.0.len() ==> well_formed_network(#[trigger] st.0[i])
    &&& st.1 matches Some(n) ==> well_formed_network(n)
}

proof fn lemma_scan_state_well_formed(ls: Seq<Seq<char>>)
    ensures
        well_formed_state(scan_state(ls)),
    decreases ls.len(),
{
    reveal_strlit("(on");
    if ls.len() > 0 {
        lemma_scan_state_well_formed(ls.drop_last());
        let prev = scan_state(ls.drop_last());
        let t = trim(ls.last());
        let f = flush(prev.0, prev.1);
        assert forall|i: int| 0 <= i < f.len() implies well_formed_network(#[trigger] f[i]) by {
            if i < prev.0.len() {
                assert(f[i] == prev.0[i]);
            }
        }
        let ws = words(t);
        lemma_words_have_no_ws(t);
        if ws.len() >= 2 {
            let b = trim_end_matches(ws[1], "(on"@);
            lemma_trim_end_matches_prefix(ws[1], "(on"@);
            assert forall|j: int| 0 <= j < b.len() implies !is_ws(#[trigger] b[j]) by {
                assert(b[j] == ws[1][j]);
            }
        }
        let fr = t.skip("freq: "@.len() as int) + " MHz"@;
        assert(fr.skip(fr.len() - " MHz"@.len()) =~= " MHz"@);
    }
}

/// Every network read from a scan has a BSSID without whitespace and
/// without a trailing `(on`, and a frequency that is empty or ends in ` MHz`.
pub proof fn scanned_networks_are_well_formed(output: Seq<char>)
    ensures
        ({
            let nets = scan_networks_of(output);
            forall|i: int| 0 <= i < nets.len() ==> well_formed_network(#[trigger] nets[i])
        }),
{
    let st = scan_state(lines(output));
    lemma_scan_state_well_formed(lines(output));
    let f = flush(st.0, st.1);
    assert forall|i: int| 0 <= i < f.len() implies well_formed_network(#[trigger] f[i]) by {
        if i < st.0.len() {
            assert(f[i] == st.0[i]);
        }
    }
}

/// Reads the output of `iw <interface> scan`.
pub fn parse_scan_output(output: &str) -> (networks: Vec<WifiNetwork>)
    ensures
        network_views(networks@) == scan_networks_of(output@),
{
    let v = chars_of(output);
    let ls = line_bounds(&v);
    let bss_tag = chars_of("BSS ");
    let ssid_tag = chars_of("SSID: ");
    let signal_tag = chars_of("signal: ");
    let freq_tag = chars_of("freq: ");
    let on_tag = chars_of("(on");
    let mut networks: Vec<WifiNetwork> = Vec::new();
    let mut current: Option<WifiNetwork> = None;
    let ghost all = lines(v@);
    let mut k: usize = 0;
    while k < ls.len()
        invariant
            v@ == output@,
            all == lines(v@),
            bounds_match(v@, ls@, all, 0, v@.len() as int),
            bss_tag@ == "BSS "@,
            ssid_tag@ == "SSID: "@,
            signal_tag@ == "signal: "@,
            freq_tag@ == "freq: "@,
            on_tag@ == "(on"@,
            0 <= k <= ls@.len(),
            (network_views(networks@), current_view(current)) == scan_state(all.take(k as int)),
        decreases ls@.len() - k,
    {
        let ghost nets0 = network_views(networks@);
        let ghost cur0 = current_view(current);
        assert(all.take(k + 1).drop_last() =~= all.take(k as int));
        let (a, b) = ls[k];
        let (ta, tb) = trim_bounds(&v, a, b);
        let ghost t = v@.subrange(ta as int, tb as int);
        assert(t == trim(all[k as int]));
        if has_prefix(&v, ta, tb, &bss_tag) {
            let prev = current;
            current = None;
            match prev {
                Some(net) => {
                    if !net.ssid.as_str().is_empty() {
                        networks.push(net);
                    }
                },
                None => {},
            }
            assert(network_views(networks@) =~= flush(nets0, cur0));
            let wb = word_bounds(&v, ta, tb);
            if wb.len() >= 2 {
                let (wa, we) = wb[1];
                let e = trim_end_matches_bound(&v, wa, we, &on_tag);
                current = Some(
                    WifiNetwork {
                        ssid: String::new(),
                        signal: String::new(),
                        bssid: text_between(output, wa, e),
                        frequency: String::new(),
                    },
                );
            }
            assert(current_view(current) == bss_start(t));
        }
        if has_prefix(&v, ta, tb, &ssid_tag) {
            current = match current {
                Some(net) => Some(
                    WifiNetwork {
                        ssid: text_between(output, ta + ssid_tag.len(), tb),
                        signal: net.signal,
                        bssid: net.bssid,
                        frequency: net.frequency,
                    },
                ),
                None => None,
            };
            assert(v@.subrange(ta + ssid_tag@.len(), tb as int) =~= t.skip(ssid_tag@.len() as int));
        }
        if has_prefix(&v, ta, tb, &signal_tag) {
            current = match current {
                Some(net) => Some(
                    WifiNetwork {
                        ssid: net.ssid,
                        signal: text_between(output, ta + signal_tag.len(), tb),
                        bssid: net.bssid,
                        frequency: net.frequency,
                    },
                ),
                None => None,
            };
            assert(v@.subrange(ta + signal_tag@.len(), tb as int) =~= t.skip(
                signal_tag@.len() as int,
            ));
        }
        if has_prefix(&v, ta, tb, &freq_tag) {
            current = match current {
                Some(net) => {
                    let mut f = text_between(output, ta + freq_tag.len(), tb);
                    f.append(" MHz");
                    Some(
                        WifiNetwork {
                            ssid: net.ssid,
                            signal: net.signal,
                            bssid: net.bssid,
                            frequency: f,
                        },
                    )
                },
                None => None,
            };
            assert(v@.subrange(ta + freq_tag@.len(), tb as int) =~= t.skip(
                freq_tag@.len() as int,
            ));
        }
        assert((network_views(networks@), current_view(current)) == scan_step(nets0, cur0, all[k as int]));
        k = k + 1;
    }
    assert(all.take(ls@.len() as int) =~= all);
    let ghost nets0 = network_views(networks@);
    let ghost cur0 = current_view(current);
    match current {
        Some(net) => {
            if !net.ssid.as_str().is_empty() {
                networks.push(net);
            }
        },
        None => {},
    }
    assert(network_views(networks@) =~= flush(nets0, cur0));
    networks
}


/// The state after reading the lines `ls` in order, starting from `st`.
pub open spec fn scan_from(
    st: (Seq<NetworkView>, Option<NetworkView>),
    ls: Seq<Seq<char>>,
) -> (Seq<NetworkView>, Option<NetworkView>)
    decreases ls.len(),
{
    if ls.len() == 0 {
        st
    } else {
        let prev = scan_from(st, ls.drop_last());
        scan_step(prev.0, prev.1, ls.last())
    }
}

proof fn lemma_scan_state_from_start(ls: Seq<Seq<char>>)
    ensures
        scan_state(ls) == scan_from((Seq::empty(), None), ls),
    decreases ls.len(),
{
    if ls.len() > 0 {
        lemma_scan_state_from_start(ls.drop_last());
    }
}

proof fn lemma_scan_from_concat(
    st: (Seq<NetworkView>, Option<NetworkView>),
    l1: Seq<Seq<char>>,
    l2: Seq<Seq<char>>,
)
    ensures
        scan_from(st, l1 + l2) == scan_from(scan_from(st, l1), l2),
    decreases l2.len(),
{
    if l2.len() == 0 {
        assert(l1 + l2 =~= l1);
    } else {
        assert((l1 + l2).drop_last() =~= l1 + l2.drop_last());
        assert((l1 + l2).last() == l2.last());
        lemma_scan_from_concat(st, l1, l2.drop_last());
    }
}

proof fn lemma_scan_from_one(st: (Seq<NetworkView>, Option<NetworkView>), l: Seq<char>)
    ensures
        scan_from(st, seq![l]) == scan_step(st.0, st.1, l),
{
    assert(seq![l].drop_last() =~= Seq::<Seq<char>>::empty());
    assert(scan_from(st, seq![l].drop_last()) == st);
}

/// Networks already found are carried along unchanged.
proof fn lemma_scan_from_keeps_found(
    found: Seq<NetworkView>,
    st: (Seq<NetworkView>, Option<NetworkView>),
    ls: Seq<Seq<char>>,
)
    ensures
        scan_from((found + st.0, st.1), ls) == (found + scan_from(st, ls).0, scan_from(st, ls).1),
    decreases ls.len(),
{
    if ls.len() > 0 {
        lemma_scan_from_keeps_found(found, st, ls.drop_last());
        let prev = scan_from(st, ls.drop_last());
        assert(flush(found + prev.0, prev.1) =~= found + flush(prev.0, prev.1));
    }
}

/// Only the trimmed text of each line matters.
proof fn lemma_scan_from_trimmed(
    st: (Seq<NetworkView>, Option<NetworkView>),
    l1: Seq<Seq<char>>,
    l2: Seq<Seq<char>>,
)
    requires
        l1.len() == l2.len(),
        forall|k: int| 0 <= k < l1.len() ==> trim(#[trigger] l1[k]) == trim(l2[k]),
    ensures
        scan_from(st, l1) == scan_from(st, l2),
    decreases l1.len(),
{
    if l1.len() > 0 {
        lemma_scan_from_trimmed(st, l1.drop_last(), l2.drop_last());
        assert(trim(l1.last()) == trim(l2.last()));
    }
}

/// From the start, lines before any `BSS ` line leave the state unchanged.
proof fn lemma_scan_from_start_without_bss(ls: Seq<Seq<char>>)
    requires
        forall|k: int| 0 <= k < ls.len() ==> !starts_with(trim(#[trigger] ls[k]), "BSS "@),
    ensures
        scan_from((Seq::empty(), None), ls) == (Seq::<NetworkView>::empty(), None::<NetworkView>),
    decreases ls.len(),
{
    if ls.len() > 0 {
        lemma_scan_from_start_without_bss(ls.drop_last());
        assert(!starts_with(trim(ls.last()), "BSS "@));
    }
}

/// A scan read in two parts, the second beginning with a `BSS ` line, lists
/// the networks of the first part followed by those of the second: a new
/// `BSS` line closes the network left open, as the end of the text does.
pub proof fn scan_of_concatenation(a: Seq<char>, b: Seq<char>)
    requires
        a.len() == 0 || a.last() == '\n',
        lines(b).len() > 0,
        starts_with(trim(lines(b)[0]), "BSS "@),
    ensures
        scan_networks_of(a + b) == scan_networks_of(a) + scan_networks_of(b),
{
    let la = lines(a);
    let lb = lines(b);
    let l0 = lb[0];
    let rest = lb.drop_first();
    let empty_state = (Seq::<NetworkView>::empty(), None::<NetworkView>);
    lemma_lines_concat(a, b);
    assert(lb =~= seq![l0] + rest);
    assert(la + lb =~= (la + seq![l0]) + rest);
    lemma_scan_state_from_start(la + lb);
    lemma_scan_state_from_start(la);
    lemma_scan_state_from_start(lb);
    lemma_scan_from_concat(empty_state, la + seq![l0], rest);
    lemma_scan_from_concat(empty_state, la, seq![l0]);
    lemma_scan_from_concat(empty_state, seq![l0], rest);
    let sa = scan_from(empty_state, la);
    lemma_scan_from_one(sa, l0);
    lemma_scan_from_one(empty_state, l0);
    let opened = scan_step(Seq::empty(), None, l0);
    let found = flush(sa.0, sa.1);
    assert(scan_step(sa.0, sa.1, l0) == (found, opened.1));
    assert(opened.0 =~= Seq::<NetworkView>::empty());
    assert(found + opened.0 =~= found);
    lemma_scan_from_keeps_found(found, opened, rest);
    let x = scan_from(opened, rest);
    assert(flush(found + x.0, x.1) =~= found + flush(x.0, x.1));
}

/// Text before the first `BSS ` line is ignored.
pub proof fn scan_ignores_leading_text(p: Seq<char>, s: Seq<char>)
    requires
        p.len() == 0 || p.last() == '\n',
        forall|k: int|
            0 <= k < lines(p).len() ==> !starts_with(trim(#[trigger] lines(p)[k]), "BSS "@),
    ensures
        scan_networks_of(p + s) == scan_networks_of(s),
{
    let empty_state = (Seq::<NetworkView>::empty(), None::<NetworkView>);
    lemma_lines_concat(p, s);
    lemma_scan_state_from_start(lines(p) + lines(s));
    lemma_scan_state_from_start(lines(s));
    lemma_scan_from_concat(empty_state, lines(p), lines(s));
    lemma_scan_from_start_without_bss(lines(p));
}

/// The text between newlines of `output`, each piece trimmed.
pub open spec fn trimmed_pieces(output: Seq<char>) -> Seq<Seq<char>> {
    split_on(output, '\n').map_values(|p: Seq<char>| trim(p))
}

/// A line that is blank once trimmed changes nothing.
proof fn lemma_scan_step_blank(nets: Seq<NetworkView>, cur: Option<NetworkView>, line: Seq<char>)
    requires
        trim(line).len() == 0,
    ensures
        scan_step(nets, cur, line) == (nets, cur),
{
    reveal_strlit("BSS ");
    reveal_strlit("SSID: ");
    reveal_strlit("signal: ");
    reveal_strlit("freq: ");
}

/// A scan reads the trimmed pieces between newlines; a blank last piece
/// changes nothing, so it does not matter whether it counts as a line.
proof fn lemma_scan_of_pieces(output: Seq<char>)
    ensures
        scan_state(lines(output)) == scan_from((Seq::empty(), None), trimmed_pieces(output)),
{
    let ps = split_on(output, '\n');
    let ls = lines(output);
    let q = trimmed_pieces(output);
    let empty_state = (Seq::<NetworkView>::empty(), None::<NetworkView>);
    lemma_split_on_nonempty(output, '\n');
    lemma_scan_state_from_start(ls);
    assert forall|k: int| 0 <= k < ls.len() implies trim(#[trigger] ls[k]) == trim(q[k]) by {
        lemma_trim_strip_cr(ps[k]);
        trim_is_idempotent(ps[k]);
    }
    if ps.last().len() == 0 {
        let q1 = q.drop_last();
        assert forall|k: int| 0 <= k < ls.len() implies trim(#[trigger] ls[k]) == trim(q1[k]) by {
            assert(q1[k] == q[k]);
        }
        lemma_scan_from_trimmed(empty_state, ls, q1);
        assert(q.last() == trim(ps.last()));
        assert(ps.last() =~= Seq::<char>::empty());
        assert(trim(ps.last()) =~= Seq::<char>::empty());
        let prev = scan_from(empty_state, q1);
        lemma_scan_step_blank(prev.0, prev.1, q.last());
    } else {
        lemma_scan_from_trimmed(empty_state, ls, q);
    }
}

/// Whitespace at the start or end of lines does not change what a scan
/// lists, blank last lines included: texts whose pieces between newlines
/// match once trimmed give the same networks.
pub proof fn scan_ignores_indentation(o1: Seq<char>, o2: Seq<char>)
    requires
        split_on(o1, '\n').len() == split_on(o2, '\n').len(),
        forall|k: int|
            0 <= k < split_on(o1, '\n').len() ==> trim(#[trigger] split_on(o1, '\n')[k]) == trim(
                split_on(o2, '\n')[k],
            ),
    ensures
        scan_networks_of(o1) == scan_networks_of(o2),
{
    lemma_scan_of_pieces(o1);
    lemma_scan_of_pieces(o2);
    assert(trimmed_pieces(o1) =~= trimmed_pieces(o2));
}

/// In a block whose network already has an SSID, a later `SSID: ` line
/// replaces that SSID; the other fields and the order are kept.
pub proof fn later_ssid_line_overrides(output: Seq<char>, line: Seq<char>)
    requires
        output.len() == 0 || output.last() == '\n',
        forall|i: int| 0 <= i < line.len() ==> line[i] != '\n' && line[i] != '\r',
        starts_with(trim(line), "SSID: "@),
        trim(line).len() > "SSID: "@.len(),
        scan_state(lines(output)).1 matches Some(n) && n.ssid.len() > 0,
    ensures
        ({
            let before = scan_networks_of(output);
            let after = scan_networks_of(output + line + seq!['\n']);
            let last = before.last();
            &&& before.len() > 0
            &&& after == before.update(
                before.len() - 1,
                NetworkView {
                    ssid: trim(line).skip("SSID: "@.len() as int),
                    signal: last.signal,
                    bssid: last.bssid,
                    frequency: last.frequency,
                },
            )
        }),
{
    reveal_strlit("SSID: ");
    reveal_strlit("BSS ");
    reveal_strlit("signal: ");
    reveal_strlit("freq: ");
    let t = trim(line);
    assert(t[0] == t.take(6)[0]);
    assert(t[0] == 'S');
    assert(!starts_with(t, "BSS "@)) by {
        if starts_with(t, "BSS "@) {
            assert(t[0] == t.take(4)[0]);
        }
    }
    assert(!starts_with(t, "signal: "@)) by {
        if starts_with(t, "signal: "@) {
            assert(t[0] == t.take(8)[0]);
        }
    }
    assert(!starts_with(t, "freq: "@)) by {
        if starts_with(t, "freq: "@) {
            assert(t[0] == t.take(6)[0]);
        }
    }
    assert(output + line + seq!['\n'] =~= output + (line + seq!['\n']));
    lemma_lines_concat(output, line + seq!['\n']);
    lemma_lines_single(line);
    let lo = lines(output);
    assert(lines(output + line + seq!['\n']) =~= lo.push(line));
    assert(lo.push(line).drop_last() =~= lo);
    let st = scan_state(lo);
    let before = scan_networks_of(output);
    let after = scan_networks_of(output + line + seq!['\n']);
    assert(before == st.0.push(st.1.unwrap()));
    assert(after =~= before.update(
        before.len() - 1,
        NetworkView {
            ssid: t.skip(6),
            signal: before.last().signal,
            bssid: before.last().bssid,
            frequency: before.last().frequency,
        },
    ));
}

/// Where the generated configuration is written.
pub const WPA_SUPPLICANT_CONF: &'static str = "/tmp/wpa_supplicant_demo.conf";

/// Whether the output of `id -u` names the superuser.
pub fn is_root_uid(id_output: &str) -> (b: bool)
    ensures
        b == (trim(id_output@) == "0"@),
{
    let v = chars_of(id_output);
    let (a, b) = trim_bounds(&v, 0, v.len());
    assert(v@.subrange(0, v@.len() as int) =~= v@);
    equals(&v, a, b, &chars_of("0"))
}

/// The interface that a line of `iw dev` output names: the second word of
/// a line that, trimmed, begins with `Interface `.
pub open spec fn interface_of(line: Seq<char>) -> Option<Seq<char>> {
    if starts_with(trim(line), "Interface "@) && words(line).len() >= 2 {
        Some(words(line)[1])
    } else {
        None
    }
}

/// Reads the first interface name from the output of `iw dev`.
pub fn parse_interface_name(output: &str) -> (name: Option<String>)
    ensures
        match name {
            Some(n) => first_of_lines(lines(output@), |l: Seq<char>| interface_of(l)) == Some(n@),
            None => first_of_lines(lines(output@), |l: Seq<char>| interface_of(l)) is None,
        },
{
    let v = chars_of(output);
    let ls = line_bounds(&v);
    let tag = chars_of("Interface ");
    let ghost all = lines(v@);
    assert(all.skip(0) =~= all);
    let mut k: usize = 0;
    while k < ls.len()
        invariant
            v@ == output@,
            all == lines(v@),
            bounds_match(v@, ls@, all, 0, v@.len() as int),
            tag@ == "Interface "@,
            0 <= k <= ls@.len(),
            first_of_lines(all, |l: Seq<char>| interface_of(l)) == first_of_lines(
                all.skip(k as int),
                |l: Seq<char>| interface_of(l),
            ),
        decreases ls@.len() - k,
    {
        let (a, b) = ls[k];
        let (ta, tb) = trim_bounds(&v, a, b);
        assert(all.skip(k as int)[0] == all[k as int]);
        assert(all.skip(k as int).drop_first() =~= all.skip(k + 1));
        if has_prefix(&v, ta, tb, &tag) {
            let wb = word_bounds(&v, a, b);
            if wb.len() >= 2 {
                let (wa, we) = wb[1];
                return Some(text_between(output, wa, we));
            }
        }
        k = k + 1;
    }
    assert(all.skip(k as int) =~= Seq::<Seq<char>>::empty());
    None
}

/// The first line that, trimmed, begins with `Interface ` names the
/// interface: an indented `Interface <name>` line gives exactly `<name>`,
/// whatever the name, once no earlier line is an `Interface ` line.
pub proof fn first_interface_line_names_it(
    output: Seq<char>,
    k: int,
    indent: Seq<char>,
    name: Seq<char>,
)
    requires
        0 <= k < lines(output).len(),
        lines(output)[k] == indent + "Interface "@ + name,
        blank(indent),
        name.len() > 0,
        unspaced(name),
        forall|j: int|
            0 <= j < k ==> !starts_with(trim(#[trigger] lines(output)[j]), "Interface "@),
    ensures
        first_of_lines(lines(output), |l: Seq<char>| interface_of(l)) == Some(name),
{
    reveal_strlit("Interface ");
    let lit = "Interface "@;
    let ls = lines(output);
    let line = ls[k];
    let f = |l: Seq<char>| interface_of(l);
    assert forall|j: int| 0 <= j < k implies f(#[trigger] ls[j]) is None by {}
    lemma_first_of_lines_skip(ls, k, f);
    assert(ls.skip(k)[0] == line);
    let tail = lit + name;
    assert(line =~= indent + tail);
    lemma_trim_start_blank_prefix(indent, tail);
    assert(tail[0] == 'I');
    assert(trim_start(tail) == tail);
    assert(tail.last() == name.last());
    assert(!is_ws(name[name.len() - 1]));
    assert(trim_end(tail) == tail);
    assert(trim(line) == tail);
    assert(tail.take(lit.len() as int) =~= lit);
    let word = lit.take(9);
    assert(unspaced(word)) by {
        assert forall|i: int| 0 <= i < word.len() implies !is_ws(word[i]) by {
            assert(word[i] == lit[i]);
        }
    }
    assert(lit =~= word + seq![' ']);
    let head = word + seq![' '];
    assert(tail =~= head + name);
    lemma_words_blank(indent);
    lemma_words_concat(indent, tail);
    lemma_words_concat(head, name);
    assert(head.drop_last() =~= word);
    lemma_words_single(word);
    lemma_words_single(name);
    assert(words(head) == words(word));
    assert(words(line) =~= seq![word, name]);
    assert(interface_of(line) == Some(name));
}

/// The configuration text for a network: open when `password` is empty,
/// WPA/WPA2 with that passphrase otherwise.
pub open spec fn wpa_config_of(ssid: Seq<char>, password: Seq<char>) -> Seq<char> {
    if password.len() == 0 {
        "ctrl_interface=/var/run/wpa_supplicant\nnetwork={\nssid=\""@ + ssid
            + "\"\nkey_mgmt=NONE\n}\n"@
    } else {
        "ctrl_interface=/var/run/wpa_supplicant\nnetwork={\nssid=\""@ + ssid + "\"\npsk=\""@
            + password + "\"\n}\n"@
    }
}

/// Writes the configuration text for a network.
pub fn wpa_config_text(ssid: &str, password: &str) -> (config: String)
    ensures
        config@ == wpa_config_of(ssid@, password@),
{
    let mut config = String::from_str("ctrl_interface=/var/run/wpa_supplicant\nnetwork={\nssid=\"");
    config.append(ssid);
    if password.is_empty() {
        config.append("\"\nkey_mgmt=NONE\n}\n");
    } else {
        config.append("\"\npsk=\"");
        config.append(password);
        config.append("\"\n}\n");
    }
    config
}

/// The configuration as it is shown: every occurrence of a non-empty
/// password replaced by `********`.
pub open spec fn masked_config_of(config: Seq<char>, password: Seq<char>) -> Seq<char> {
    if password.len() == 0 {
        config
    } else {
        replace_all(config, password, "********"@)
    }
}

/// The configuration as it is shown, with the password hidden.
pub fn masked_config(config: &str, password: &str) -> (shown: String)
    ensures
        shown@ == masked_config_of(config@, password@),
{
    if password.is_empty() {
        String::from_str(config)
    } else {
        replace_text(config, password, "********")
    }
}

/// A password that holds no `*` no longer occurs in the configuration as it
/// is shown.
pub proof fn masked_config_hides_password(config: Seq<char>, password: Seq<char>)
    requires
        password.len() > 0,
        forall|k: int| 0 <= k < password.len() ==> password[k] != '*',
    ensures
        !contains(masked_config_of(config, password), password),
{
    reveal_strlit("********");
    lemma_replace_all_removes_pattern(config, password, "********"@, '*');
}

/// The arguments with which `wpa_supplicant` is started in the background
/// on `interface` with the generated configuration.
pub fn wpa_supplicant_args(interface: &str) -> (args: Vec<String>)
    ensures
        args@.len() == 5,
        args@[0]@ == "-B"@,
        args@[1]@ == "-i"@,
        args@[2]@ == interface@,
        args@[3]@ == "-c"@,
        args@[4]@ == WPA_SUPPLICANT_CONF@,
{
    let mut args: Vec<String> = Vec::new();
    args.push(String::from_str("-B"));
    args.push(String::from_str("-i"));
    args.push(String::from_str(interface));
    args.push(String::from_str("-c"));
    args.push(String::from_str(WPA_SUPPLICANT_CONF));
    args
}


/// A DHCP client program.
#[derive(Clone, Copy, Debug, PartialEq, Eq, Structural)]
pub enum DhcpClient {
    Dhclient,
    Dhcpcd,
}

/// What running a DHCP client gave: it ran and succeeded, it ran and
/// failed, or it could not be started.
#[derive(Clone, Copy, Debug, PartialEq, Eq, Structural)]
pub enum ClientOutcome {
    Succeeded,
    Failed,
    Missing,
}

/// What to do next while obtaining an address.
#[derive(Clone, Copy, Debug, PartialEq, Eq, Structural)]
pub enum DhcpStep {
    /// Run this client on the interface.
    Run(DhcpClient),
    /// This client configured the interface: show its address.
    Configured(DhcpClient),
    /// `dhcpcd`, the fallback, ran and failed.
    DhcpcdFailed,
    /// `dhcpcd` could not be started either; `dhclient_missing` tells
    /// whether `dhclient` could not be started or ran and failed.
    NoClient { dhclient_missing: bool },
}

/// The next step given what `dhclient` and then `dhcpcd` gave so far:
/// `dhclient` first, `dhcpcd` only when `dhclient` did not succeed.
pub open spec fn dhcp_step_of(dhclient: Option<ClientOutcome>, dhcpcd: Option<ClientOutcome>) -> DhcpStep {
    match dhclient {
        None => DhcpStep::Run(DhcpClient::Dhclient),
        Some(ClientOutcome::Succeeded) => DhcpStep::Configured(DhcpClient::Dhclient),
        Some(first) => match dhcpcd {
            None => DhcpStep::Run(DhcpClient::Dhcpcd),
            Some(ClientOutcome::Succeeded) => DhcpStep::Configured(DhcpClient::Dhcpcd),
            Some(ClientOutcome::Failed) => DhcpStep::DhcpcdFailed,
            Some(ClientOutcome::Missing) => DhcpStep::NoClient {
                dhclient_missing: first == ClientOutcome::Missing,
            },
        },
    }
}

/// Decides the next step in obtaining an address.
pub fn dhcp_next(dhclient: Option<ClientOutcome>, dhcpcd: Option<ClientOutcome>) -> (step: DhcpStep)
    ensures
        step == dhcp_step_of(dhclient, dhcpcd),
{
    match dhclient {
        None => DhcpStep::Run(DhcpClient::Dhclient),
        Some(ClientOutcome::Succeeded) => DhcpStep::Configured(DhcpClient::Dhclient),
        Some(first) => match dhcpcd {
            None => DhcpStep::Run(DhcpClient::Dhcpcd),
            Some(ClientOutcome::Succeeded) => DhcpStep::Configured(DhcpClient::Dhcpcd),
            Some(ClientOutcome::Failed) => DhcpStep::DhcpcdFailed,
            Some(ClientOutcome::Missing) => DhcpStep::NoClient {
                dhclient_missing: match first {
                    ClientOutcome::Missing => true,
                    _ => false,
                },
            },
        },
    }
}

/// After `dhclient` did not succeed, the step follows what `dhcpcd` gave:
/// it is run when it has not run yet, its success configures the
/// interface, its failure is reported as such, and its absence reports
/// that no client could be started, telling whether `dhclient` was absent.
pub proof fn dhcp_fallback_follows_dhcpcd(first: ClientOutcome)
    requires
        first != ClientOutcome::Succeeded,
    ensures
        dhcp_step_of(Some(first), None) == DhcpStep::Run(DhcpClient::Dhcpcd),
        dhcp_step_of(Some(first), Some(ClientOutcome::Succeeded)) == DhcpStep::Configured(
            DhcpClient::Dhcpcd,
        ),
        dhcp_step_of(Some(first), Some(ClientOutcome::Failed)) == DhcpStep::DhcpcdFailed,
        dhcp_step_of(Some(first), Some(ClientOutcome::Missing)) == (DhcpStep::NoClient {
            dhclient_missing: first == ClientOutcome::Missing,
        }),
{
}

/// `dhcpcd` is run only after `dhclient` ran and did not succeed, and only
/// once.
pub proof fn dhcp_falls_back_only_after_dhclient(
    dhclient: Option<ClientOutcome>,
    dhcpcd: Option<ClientOutcome>,
)
    ensures
        dhcp_step_of(dhclient, dhcpcd) == DhcpStep::Run(DhcpClient::Dhcpcd) ==> {
            &&& dhclient is Some
            &&& dhclient != Some(ClientOutcome::Succeeded)
            &&& dhcpcd is None
        },
        dhcp_step_of(dhclient, dhcpcd) == DhcpStep::Run(DhcpClient::Dhclient) ==> dhclient is None,
{
}

/// Once a client has succeeded, or both have run, nothing more is run: at
/// most two clients are started.
pub proof fn dhcp_runs_at_most_two_clients(
    dhclient: Option<ClientOutcome>,
    dhcpcd: Option<ClientOutcome>,
)
    ensures
        dhclient == Some(ClientOutcome::Succeeded) ==> dhcp_step_of(dhclient, dhcpcd)
            == DhcpStep::Configured(DhcpClient::Dhclient),
        (dhclient is Some && dhcpcd is Some) ==> !(dhcp_step_of(dhclient, dhcpcd) is Run),
{
}

} // verus!
