use wifi_connector::network_manager::{
    connect_args, find_wifi_device, parse_device_status, parse_networks,
    parse_saved_wifi_connections, security_label,
};

#[test]
fn networks_from_terse_list() {
    let nets = parse_networks("HomeNet:80:WPA2\nOpenCafe:55:\n:30:WPA2\nbad line\nA:B\nX:1:WPA1 WPA2:extra\n");
    let got: Vec<(String, String, String)> =
        nets.into_iter().map(|n| (n.ssid, n.signal, n.security)).collect();
    assert_eq!(
        got,
        vec![
            ("HomeNet".to_string(), "80".to_string(), "WPA2".to_string()),
            ("OpenCafe".to_string(), "55".to_string(), "".to_string()),
            ("X".to_string(), "1".to_string(), "WPA1 WPA2".to_string()),
        ]
    );
}

#[test]
fn networks_with_crlf_lines() {
    let nets = parse_networks("A:1:WPA\r\nB:2:\r\n");
    assert_eq!(nets.len(), 2);
    assert_eq!(nets[0].security, "WPA");
    assert_eq!(nets[1].security, "");
}

#[test]
fn networks_from_empty_output() {
    assert!(parse_networks("").is_empty());
    assert!(parse_networks("\n\n").is_empty());
}

#[test]
fn open_security_label() {
    assert_eq!(security_label(""), "Aperta");
    assert_eq!(security_label("WPA2"), "WPA2");
}

#[test]
fn saved_wifi_connections() {
    let names = parse_saved_wifi_connections("HomeWifi:wifi\nLAN:ethernet\nGuest:802-11-wifi\nNoType\n");
    assert_eq!(names, vec!["HomeWifi".to_string(), "Guest".to_string()]);
}

#[test]
fn first_wifi_device() {
    assert_eq!(find_wifi_device("eth0:ethernet\nwlan0:wifi\nwlan1:wifi\n"), Some("wlan0".to_string()));
    assert_eq!(find_wifi_device("eth0:ethernet\np2p:wifi-p2p\n"), None);
    assert_eq!(find_wifi_device(""), None);
}

#[test]
fn device_status_rows() {
    let rows = parse_device_status("wlan0:wifi:connected:HomeNet\nlo:loopback:unmanaged\neth0:ethernet:unavailable:\n");
    assert_eq!(rows.len(), 2);
    assert_eq!(
        (rows[0].device.as_str(), rows[0].kind.as_str(), rows[0].state.as_str(), rows[0].connection.as_str()),
        ("wlan0", "wifi", "connected", "HomeNet")
    );
    assert_eq!(rows[1].connection, "");
}

#[test]
fn connect_arguments() {
    assert_eq!(connect_args("Home", ""), vec!["device", "wifi", "connect", "Home"]);
    assert_eq!(
        connect_args("Home", "pw"),
        vec!["device", "wifi", "connect", "Home", "password", "pw"]
    );
}
