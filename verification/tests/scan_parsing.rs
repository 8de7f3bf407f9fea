use wifi_connector::wpa_supplicant::{
    is_root_uid, parse_interface_name, parse_scan_output, WifiNetwork,
};

const IW_SCAN: &str = "BSS 00:11:22:33:44:55(on wlan0) -- associated\n\
\tTSF: 1234 usec\n\
\tfreq: 2437\n\
\tbeacon interval: 100 TUs\n\
\tsignal: -45.00 dBm\n\
\tSSID: HomeNet\n\
BSS aa:bb:cc:dd:ee:ff(on wlan0)\n\
\tfreq: 5180\n\
\tsignal: -70.00 dBm\n\
\tSSID: \n\
BSS 11:22:33:44:55:66(on wlan0)\n\
\tsignal: -60.00 dBm\n\
\tSSID: Office Net\n\
\tfreq: 2412\n";

fn fields(n: &WifiNetwork) -> (&str, &str, &str, &str) {
    (n.ssid.as_str(), n.signal.as_str(), n.bssid.as_str(), n.frequency.as_str())
}

#[test]
fn scan_output_lists_networks_in_order() {
    let nets = parse_scan_output(IW_SCAN);
    assert_eq!(nets.len(), 2);
    assert_eq!(fields(&nets[0]), ("HomeNet", "-45.00 dBm", "00:11:22:33:44:55", "2437 MHz"));
    assert_eq!(fields(&nets[1]), ("Office Net", "-60.00 dBm", "11:22:33:44:55:66", "2412 MHz"));
}

#[test]
fn scan_output_drops_networks_without_ssid() {
    let nets = parse_scan_output("BSS aa:bb:cc:dd:ee:ff(on wlan0)\n\tfreq: 5180\n\tsignal: -70.00 dBm\n");
    assert!(nets.is_empty());
    for n in parse_scan_output(IW_SCAN) {
        assert!(!n.ssid.is_empty());
    }
}

#[test]
fn scan_output_empty_and_without_bss() {
    assert!(parse_scan_output("").is_empty());
    assert!(parse_scan_output("SSID: Orphan\nsignal: -1 dBm\n").is_empty());
}

#[test]
fn scan_output_last_value_wins_and_crlf() {
    let nets = parse_scan_output("BSS 01:02:03:04:05:06\r\n  SSID: First\r\n  SSID: Second\r\n  freq: 5200\r\n");
    assert_eq!(nets.len(), 1);
    assert_eq!(fields(&nets[0]), ("Second", "", "01:02:03:04:05:06", "5200 MHz"));
}

#[test]
fn scan_output_strips_every_trailing_on() {
    let nets = parse_scan_output("BSS 0a:0b(on(on wlan0)\nSSID: X\n");
    assert_eq!(nets[0].bssid, "0a:0b");
}

#[test]
fn interface_name_is_second_word() {
    let out = "phy#0\n\tUnnamed/non-netdev interface\n\tInterface wlan0\n\t\tifindex 3\n\tInterface wlan1\n";
    assert_eq!(parse_interface_name(out), Some("wlan0".to_string()));
}

#[test]
fn interface_name_absent() {
    assert_eq!(parse_interface_name("phy#0\n\tInterfaces none\n"), None);
    assert_eq!(parse_interface_name(""), None);
}

#[test]
fn root_uid_detection() {
    assert!(is_root_uid("0\n"));
    assert!(is_root_uid("  0 "));
    assert!(!is_root_uid("1000\n"));
    assert!(!is_root_uid("00"));
    assert!(!is_root_uid(""));
}

fn all_fields(nets: &[WifiNetwork]) -> Vec<(String, String, String, String)> {
    nets.iter()
        .map(|n| (n.ssid.clone(), n.signal.clone(), n.bssid.clone(), n.frequency.clone()))
        .collect()
}

#[test]
fn scan_of_two_parts_is_both_scans() {
    let a = "junk\nBSS 01:01(on wlan0)\n\tSSID: A\n\tfreq: 2412\n";
    let b = "BSS 02:02(on wlan0)\n\tSSID: B\n";
    let mut expected = all_fields(&parse_scan_output(a));
    expected.extend(all_fields(&parse_scan_output(b)));
    assert_eq!(all_fields(&parse_scan_output(&format!("{}{}", a, b))), expected);
    assert_eq!(expected.len(), 2);
}

#[test]
fn scan_ignores_text_before_first_bss() {
    let p = "Interface wlan0\n\tSSID: Orphan\n\tfreq: 1\n\tsignal: -1 dBm\n";
    assert_eq!(
        all_fields(&parse_scan_output(&format!("{}{}", p, IW_SCAN))),
        all_fields(&parse_scan_output(IW_SCAN))
    );
}

#[test]
fn scan_ignores_indentation() {
    let flat: String = IW_SCAN.lines().map(|l| format!("  {} \t\n", l.trim())).collect();
    assert_eq!(all_fields(&parse_scan_output(&flat)), all_fields(&parse_scan_output(IW_SCAN)));
}

#[test]
fn later_ssid_line_wins() {
    let output = "BSS 03:03(on wlan0)\n\tsignal: -50.00 dBm\n\tSSID: old\n";
    let before = parse_scan_output(output);
    let after = parse_scan_output(&format!("{}\tSSID: new\n", output));
    assert_eq!(after.len(), before.len());
    assert_eq!(fields(&after[0]), ("new", "-50.00 dBm", "03:03", ""));
}

#[test]
fn scanned_fields_are_well_formed() {
    for n in parse_scan_output(IW_SCAN) {
        assert!(!n.bssid.chars().any(|c| c.is_whitespace()));
        assert!(!n.bssid.ends_with("(on"));
        assert!(n.frequency.is_empty() || n.frequency.ends_with(" MHz"));
    }
}

#[test]
fn scan_ignores_blank_last_line() {
    let with_blank = format!("{}  \t", IW_SCAN);
    assert_eq!(all_fields(&parse_scan_output(&with_blank)), all_fields(&parse_scan_output(IW_SCAN)));
    let crlf: String = IW_SCAN.lines().map(|l| format!("{}\r\n", l)).collect();
    assert_eq!(all_fields(&parse_scan_output(&crlf)), all_fields(&parse_scan_output(IW_SCAN)));
}
