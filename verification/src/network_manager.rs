//! The logic of the NetworkManager front end: reading the terse output of
//! `nmcli` and building its command lines.

use vstd::prelude::*;
use crate::text::{
    bounds_match, chars_of, contains, contains_in, equals, filter_map_lines, first_of_lines,
    line_bounds, lines, split_bounds, split_on, text_between, free_of, lemma_lines_concat,
    lemma_lines_single, lemma_split_on_join, lemma_split_on_no_sep,
};

verus! {

/// A network listed by `nmcli device wifi list`.
#[derive(Debug, Clone)]
pub struct WifiNetwork {
    pub ssid: String,
    pub signal: String,
    pub security: String,
}

/// A listed network as plain text fields.
pub struct NetworkView {
    pub ssid: Seq<char>,
    pub signal: Seq<char>,
    pub security: Seq<char>,
}

impl View for WifiNetwork {
    type V = NetworkView;

    open spec fn view(&self) -> NetworkView {
        NetworkView { ssid: self.ssid@, signal: self.signal@, security: self.security@ }
    }
}

/// The network that a line of `SSID:SIGNAL:SECURITY` output lists: the
/// first three `:`-separated fields, when there are at least three and the
/// SSID is not empty.
pub open spec fn network_of(line: Seq<char>) -> Option<NetworkView> {
    let ps = split_on(line, ':');
    if ps.len() >= 3 && ps[0].len() > 0 {
        Some(NetworkView { ssid: ps[0], signal: ps[1], security: ps[2] })
    } else {
        None
    }
}

/// The networks that the output of
/// `nmcli --terse --fields SSID,SIGNAL,SECURITY device wifi list` lists.
pub open spec fn networks_of(output: Seq<char>) -> Seq<NetworkView> {
    filter_map_lines(lines(output), |l: Seq<char>| network_of(l))
}

proof fn lemma_listed_ssids(ls: Seq<Seq<char>>)
    ensures
        ({
            let nets = filter_map_lines(ls, |l: Seq<char>| network_of(l));
            forall|i: int| 0 <= i < nets.len() ==> #[trigger] nets[i].ssid.len() > 0
        }),
    decreases ls.len(),
{
    if ls.len() > 0 {
        let f = |l: Seq<char>| network_of(l);
        lemma_listed_ssids(ls.drop_last());
        let prev = filter_map_lines(ls.drop_last(), f);
        let nets = filter_map_lines(ls, f);
        assert forall|i: int| 0 <= i < nets.len() implies #[trigger] nets[i].ssid.len() > 0 by {
            if i < prev.len() {
                assert(nets[i] == prev[i]);
            } else {
                assert(nets[i] == f(ls.last()).unwrap());
            }
        }
    }
}

/// Every network read from the list has a non-empty SSID.
pub proof fn listed_networks_have_ssid(output: Seq<char>)
    ensures
        ({
            let nets = networks_of(output);
            forall|i: int| 0 <= i < nets.len() ==> #[trigger] nets[i].ssid.len() > 0
        }),
{
    lemma_listed_ssids(lines(output));
}

/// Reads the output of `nmcli --terse --fields SSID,SIGNAL,SECURITY device wifi list`.
pub fn parse_networks(output: &str) -> (networks: Vec<WifiNetwork>)
    ensures
        networks@.map_values(|n: WifiNetwork| n@) == networks_of(output@),
{
    let v = chars_of(output);
    let ls = line_bounds(&v);
    let ghost all = lines(v@);
    let mut networks: Vec<WifiNetwork> = Vec::new();
    let mut k: usize = 0;
    while k < ls.len()
        invariant
            v@ == output@,
            all == lines(v@),
            bounds_match(v@, ls@, all, 0, v@.len() as int),
            0 <= k <= ls@.len(),
            networks@.map_values(|n: WifiNetwork| n@) == filter_map_lines(
                all.take(k as int),
                |l: Seq<char>| network_of(l),
            ),
        decreases ls@.len() - k,
    {
        assert(all.take(k + 1).drop_last() =~= all.take(k as int));
        let ghost before = networks@;
        let (a, b) = ls[k];
        let ps = split_bounds(&v, a, b, ':');
        if ps.len() >= 3 && ps[0].0 < ps[0].1 {
            networks.push(
                WifiNetwork {
                    ssid: text_between(output, ps[0].0, ps[0].1),
                    signal: text_between(output, ps[1].0, ps[1].1),
                    security: text_between(output, ps[2].0, ps[2].1),
                },
            );
            assert(networks@.map_values(|n: WifiNetwork| n@) =~= before.map_values(
                |n: WifiNetwork| n@,
            ).push(network_of(all[k as int]).unwrap()));
        }
        k = k + 1;
    }
    assert(all.take(ls@.len() as int) =~= all);
    networks
}

/// How a network's security is shown: `Aperta` (open) when it has none.
pub fn security_label(security: &str) -> (label: String)
    ensures
        label@ == (if security@.len() == 0 {
            "Aperta"@
        } else {
            security@
        }),
{
    if security.is_empty() {
        String::from_str("Aperta")
    } else {
        String::from_str(security)
    }
}

/// The saved connection that a line of `NAME:TYPE` output names, when its
/// type field mentions `wifi`.
pub open spec fn saved_wifi_of(line: Seq<char>) -> Option<Seq<char>> {
    let ps = split_on(line, ':');
    if ps.len() >= 2 && contains(ps[1], "wifi"@) {
        Some(ps[0])
    } else {
        None
    }
}

/// Reads the names of the saved WiFi connections from the output of
/// `nmcli --terse --fields NAME,TYPE connection show`.
pub fn parse_saved_wifi_connections(output: &str) -> (names: Vec<String>)
    ensures
        names@.map_values(|n: String| n@) == filter_map_lines(
            lines(output@),
            |l: Seq<char>| saved_wifi_of(l),
        ),
{
    let v = chars_of(output);
    let ls = line_bounds(&v);
    let wifi = chars_of("wifi");
    let ghost all = lines(v@);
    let mut names: Vec<String> = Vec::new();
    let mut k: usize = 0;
    while k < ls.len()
        invariant
            v@ == output@,
            all == lines(v@),
            wifi@ == "wifi"@,
            bounds_match(v@, ls@, all, 0, v@.len() as int),
            0 <= k <= ls@.len(),
            names@.map_values(|n: String| n@) == filter_map_lines(
                all.take(k as int),
                |l: Seq<char>| saved_wifi_of(l),
            ),
        decreases ls@.len() - k,
    {
        assert(all.take(k + 1).drop_last() =~= all.take(k as int));
        let ghost before = names@;
        let (a, b) = ls[k];
        let ps = split_bounds(&v, a, b, ':');
        if ps.len() >= 2 && contains_in(&v, ps[1].0, ps[1].1, &wifi) {
            names.push(text_between(output, ps[0].0, ps[0].1));
            assert(names@.map_values(|n: String| n@) =~= before.map_values(|n: String| n@).push(
                saved_wifi_of(all[k as int]).unwrap(),
            ));
        }
        k = k + 1;
    }
    assert(all.take(ls@.len() as int) =~= all);
    names
}

/// The device that a line of `DEVICE:TYPE` output names, when its type is
/// exactly `wifi`.
pub open spec fn wifi_device_of(line: Seq<char>) -> Option<Seq<char>> {
    let ps = split_on(line, ':');
    if ps.len() >= 2 && ps[1] == "wifi"@ {
        Some(ps[0])
    } else {
        None
    }
}

/// Reads the first WiFi device from the output of
/// `nmcli --terse --fields DEVICE,TYPE device status`.
pub fn find_wifi_device(output: &str) -> (device: Option<String>)
    ensures
        match device {
            Some(d) => first_of_lines(lines(output@), |l: Seq<char>| wifi_device_of(l)) == Some(
                d@,
            ),
            None => first_of_lines(lines(output@), |l: Seq<char>| wifi_device_of(l)) is None,
        },
{
    let v = chars_of(output);
    let ls = line_bounds(&v);
    let wifi = chars_of("wifi");
    let ghost all = lines(v@);
    assert(all.skip(0) =~= all);
    let mut k: usize = 0;
    while k < ls.len()
        invariant
            v@ == output@,
            all == lines(v@),
            wifi@ == "wifi"@,
            bounds_match(v@, ls@, all, 0, v@.len() as int),
            0 <= k <= ls@.len(),
            first_of_lines(all, |l: Seq<char>| wifi_device_of(l)) == first_of_lines(
                all.skip(k as int),
                |l: Seq<char>| wifi_device_of(l),
            ),
        decreases ls@.len() - k,
    {
        assert(all.skip(k as int)[0] == all[k as int]);
        assert(all.skip(k as int).drop_first() =~= all.skip(k + 1));
        let (a, b) = ls[k];
        let ps = split_bounds(&v, a, b, ':');
        if ps.len() >= 2 && equals(&v, ps[1].0, ps[1].1, &wifi) {
            return Some(text_between(output, ps[0].0, ps[0].1));
        }
        k = k + 1;
    }
    assert(all.skip(k as int) =~= Seq::<Seq<char>>::empty());
    None
}

/// A device as `nmcli device status` reports it.
#[derive(Debug, Clone)]
pub struct DeviceStatus {
    pub device: String,
    pub kind: String,
    pub state: String,
    pub connection: String,
}

/// A reported device as plain text fields.
pub struct DeviceStatusView {
    pub device: Seq<char>,
    pub kind: Seq<char>,
    pub state: Seq<char>,
    pub connection: Seq<char>,
}

impl View for DeviceStatus {
    type V = DeviceStatusView;

    open spec fn view(&self) -> DeviceStatusView {
        DeviceStatusView {
            device: self.device@,
            kind: self.kind@,
            state: self.state@,
            connection: self.connection@,
        }
    }
}

/// The device that a line of `DEVICE:TYPE:STATE:CONNECTION` output reports,
/// when it has at least four fields.
pub open spec fn device_status_of(line: Seq<char>) -> Option<DeviceStatusView> {
    let ps = split_on(line, ':');
    if ps.len() >= 4 {
        Some(DeviceStatusView { device: ps[0], kind: ps[1], state: ps[2], connection: ps[3] })
    } else {
        None
    }
}

/// Reads the output of
/// `nmcli --terse --fields DEVICE,TYPE,STATE,CONNECTION device status`.
pub fn parse_device_status(output: &str) -> (devices: Vec<DeviceStatus>)
    ensures
        devices@.map_values(|d: DeviceStatus| d@) == filter_map_lines(
            lines(output@),
            |l: Seq<char>| device_status_of(l),
        ),
{
    let v = chars_of(output);
    let ls = line_bounds(&v);
    let ghost all = lines(v@);
    let mut devices: Vec<DeviceStatus> = Vec::new();
    let mut k: usize = 0;
    while k < ls.len()
        invariant
            v@ == output@,
            all == lines(v@),
            bounds_match(v@, ls@, all, 0, v@.len() as int),
            0 <= k <= ls@.len(),
            devices@.map_values(|d: DeviceStatus| d@) == filter_map_lines(
                all.take(k as int),
                |l: Seq<char>| device_status_of(l),
            ),
        decreases ls@.len() - k,
    {
        assert(all.take(k + 1).drop_last() =~= all.take(k as int));
        let ghost before = devices@;
        let (a, b) = ls[k];
        let ps = split_bounds(&v, a, b, ':');
        if ps.len() >= 4 {
            devices.push(
                DeviceStatus {
                    device: text_between(output, ps[0].0, ps[0].1),
                    kind: text_between(output, ps[1].0, ps[1].1),
                    state: text_between(output, ps[2].0, ps[2].1),
                    connection: text_between(output, ps[3].0, ps[3].1),
                },
            );
            assert(devices@.map_values(|d: DeviceStatus| d@) =~= before.map_values(
                |d: DeviceStatus| d@,
            ).push(device_status_of(all[k as int]).unwrap()));
        }
        k = k + 1;
    }
    assert(all.take(ls@.len() as int) =~= all);
    devices
}

/// The arguments of `nmcli` that connect to `ssid`, with `password` when
/// it is not empty.
pub fn connect_args(ssid: &str, password: &str) -> (args: Vec<String>)
    ensures
        password@.len() == 0 ==> args@.len() == 4,
        password@.len() > 0 ==> args@.len() == 6 && args@[4]@ == "password"@ && args@[5]@
            == password@,
        args@[0]@ == "device"@,
        args@[1]@ == "wifi"@,
        args@[2]@ == "connect"@,
        args@[3]@ == ssid@,
{
    let mut args: Vec<String> = Vec::new();
    args.push(String::from_str("device"));
    args.push(String::from_str("wifi"));
    args.push(String::from_str("connect"));
    args.push(String::from_str(ssid));
    if !password.is_empty() {
        args.push(String::from_str("password"));
        args.push(String::from_str(password));
    }
    args
}


/// A line added after text that is empty or ends in a newline is read as
/// one more line.
proof fn lemma_append_line(a: Seq<char>, line: Seq<char>)
    requires
        a.len() == 0 || a.last() == '\n',
        free_of(line, '\n'),
        free_of(line, '\r'),
    ensures
        lines(a + line + seq!['\n']) == lines(a).push(line),
{
    assert(a + line + seq!['\n'] =~= a + (line + seq!['\n']));
    lemma_lines_concat(a, line + seq!['\n']);
    lemma_lines_single(line);
    assert(lines(a) + seq![line] =~= lines(a).push(line));
}

proof fn lemma_filter_map_push<T>(ls: Seq<Seq<char>>, l: Seq<char>, f: spec_fn(Seq<char>) -> Option<T>)
    ensures
        filter_map_lines(ls.push(l), f) == match f(l) {
            Some(x) => filter_map_lines(ls, f).push(x),
            None => filter_map_lines(ls, f),
        },
{
    assert(ls.push(l).drop_last() =~= ls);
}

/// A line of fields without the separator splits into exactly those fields.
proof fn lemma_two_fields(f0: Seq<char>, f1: Seq<char>)
    requires
        free_of(f0, ':'),
        free_of(f1, ':'),
    ensures
        split_on(f0 + seq![':'] + f1, ':') == seq![f0, f1],
{
    lemma_split_on_join(f0, f1, ':');
    lemma_split_on_no_sep(f0, ':');
    lemma_split_on_no_sep(f1, ':');
    assert(seq![f0] + seq![f1] =~= seq![f0, f1]);
}

proof fn lemma_three_fields(f0: Seq<char>, f1: Seq<char>, f2: Seq<char>)
    requires
        free_of(f0, ':'),
        free_of(f1, ':'),
        free_of(f2, ':'),
    ensures
        split_on(f0 + seq![':'] + f1 + seq![':'] + f2, ':') == seq![f0, f1, f2],
{
    lemma_two_fields(f0, f1);
    lemma_split_on_join(f0 + seq![':'] + f1, f2, ':');
    lemma_split_on_no_sep(f2, ':');
    assert(seq![f0, f1] + seq![f2] =~= seq![f0, f1, f2]);
}

proof fn lemma_four_fields(f0: Seq<char>, f1: Seq<char>, f2: Seq<char>, f3: Seq<char>)
    requires
        free_of(f0, ':'),
        free_of(f1, ':'),
        free_of(f2, ':'),
        free_of(f3, ':'),
    ensures
        split_on(f0 + seq![':'] + f1 + seq![':'] + f2 + seq![':'] + f3, ':') == seq![f0, f1, f2, f3],
{
    lemma_three_fields(f0, f1, f2);
    lemma_split_on_join(f0 + seq![':'] + f1 + seq![':'] + f2, f3, ':');
    lemma_split_on_no_sep(f3, ':');
    assert(seq![f0, f1, f2] + seq![f3] =~= seq![f0, f1, f2, f3]);
}

/// A listed line `ssid:signal:security` adds one network with exactly
/// those three fields, spaces and all, when the SSID is not empty, and
/// nothing otherwise; the networks of the text before it are kept.
pub proof fn listed_network_is_its_fields(
    before: Seq<char>,
    ssid: Seq<char>,
    signal: Seq<char>,
    security: Seq<char>,
)
    requires
        before.len() == 0 || before.last() == '\n',
        free_of(ssid, ':') && free_of(ssid, '\n') && free_of(ssid, '\r'),
        free_of(signal, ':') && free_of(signal, '\n') && free_of(signal, '\r'),
        free_of(security, ':') && free_of(security, '\n') && free_of(security, '\r'),
    ensures
        networks_of(before + (ssid + seq![':'] + signal + seq![':'] + security) + seq!['\n']) == (
        if ssid.len() > 0 {
            networks_of(before).push(NetworkView { ssid, signal, security })
        } else {
            networks_of(before)
        }),
{
    let line = ssid + seq![':'] + signal + seq![':'] + security;
    assert forall|i: int| 0 <= i < line.len() implies line[i] != '\n' && line[i] != '\r' by {
        if i < ssid.len() {
        } else if i == ssid.len() {
        } else if i < ssid.len() + 1 + signal.len() {
            assert(line[i] == signal[i - ssid.len() - 1]);
        } else if i == ssid.len() + 1 + signal.len() {
        } else {
            assert(line[i] == security[i - ssid.len() - 2 - signal.len()]);
        }
    }
    lemma_append_line(before, line);
    lemma_three_fields(ssid, signal, security);
    lemma_filter_map_push(lines(before), line, |l: Seq<char>| network_of(l));
}

/// A saved-connection line `name:type` adds exactly that name, spaces and
/// all, when its type mentions `wifi`, and nothing otherwise; the names of
/// the text before it are kept.
pub proof fn saved_connection_is_its_name(before: Seq<char>, name: Seq<char>, kind: Seq<char>)
    requires
        before.len() == 0 || before.last() == '\n',
        free_of(name, ':') && free_of(name, '\n') && free_of(name, '\r'),
        free_of(kind, ':') && free_of(kind, '\n') && free_of(kind, '\r'),
    ensures
        filter_map_lines(
            lines(before + (name + seq![':'] + kind) + seq!['\n']),
            |l: Seq<char>| saved_wifi_of(l),
        ) == (if contains(kind, "wifi"@) {
            filter_map_lines(lines(before), |l: Seq<char>| saved_wifi_of(l)).push(name)
        } else {
            filter_map_lines(lines(before), |l: Seq<char>| saved_wifi_of(l))
        }),
{
    let line = name + seq![':'] + kind;
    assert forall|i: int| 0 <= i < line.len() implies line[i] != '\n' && line[i] != '\r' by {
        if i < name.len() {
        } else if i == name.len() {
        } else {
            assert(line[i] == kind[i - name.len() - 1]);
        }
    }
    lemma_append_line(before, line);
    lemma_two_fields(name, kind);
    lemma_filter_map_push(lines(before), line, |l: Seq<char>| saved_wifi_of(l));
}

/// A status line `device:type:state:connection` adds one row with exactly
/// those four fields, spaces and all; the rows of the text before it are
/// kept.
pub proof fn device_row_is_its_fields(
    before: Seq<char>,
    device: Seq<char>,
    kind: Seq<char>,
    state: Seq<char>,
    connection: Seq<char>,
)
    requires
        before.len() == 0 || before.last() == '\n',
        free_of(device, ':') && free_of(device, '\n') && free_of(device, '\r'),
        free_of(kind, ':') && free_of(kind, '\n') && free_of(kind, '\r'),
        free_of(state, ':') && free_of(state, '\n') && free_of(state, '\r'),
        free_of(connection, ':') && free_of(connection, '\n') && free_of(connection, '\r'),
    ensures
        filter_map_lines(
            lines(
                before + (device + seq![':'] + kind + seq![':'] + state + seq![':'] + connection)
                    + seq!['\n'],
            ),
            |l: Seq<char>| device_status_of(l),
        ) == filter_map_lines(lines(before), |l: Seq<char>| device_status_of(l)).push(
            DeviceStatusView { device, kind, state, connection },
        ),
{
    let line = device + seq![':'] + kind + seq![':'] + state + seq![':'] + connection;
    let n0 = device.len();
    let n1 = n0 + 1 + kind.len();
    let n2 = n1 + 1 + state.len();
    assert forall|i: int| 0 <= i < line.len() implies line[i] != '\n' && line[i] != '\r' by {
        if i < n0 {
        } else if i == n0 {
        } else if i < n1 {
            assert(line[i] == kind[i - n0 - 1]);
        } else if i == n1 {
        } else if i < n2 {
            assert(line[i] == state[i - n1 - 1]);
        } else if i == n2 {
        } else {
            assert(line[i] == connection[i - n2 - 1]);
        }
    }
    lemma_append_line(before, line);
    lemma_four_fields(device, kind, state, connection);
    lemma_filter_map_push(lines(before), line, |l: Seq<char>| device_status_of(l));
}

} // verus!
