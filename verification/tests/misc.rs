use wifi_connector::menu::parse_menu_choice;
use wifi_connector::socket_impl::{ctrl_socket_path, frame_command, reply_text, WPA_CTRL_SOCKET};
use wifi_connector::text::trim_text;
use wifi_connector::vigenere::{compare_vector, shifted_strings};
use wifi_connector::dbus_impl;
use wifi_connector::socket_impl;

#[test]
fn menu_choices() {
    assert_eq!(parse_menu_choice(" 3\n", 7), Some(3));
    assert_eq!(parse_menu_choice("0", 6), Some(0));
    assert_eq!(parse_menu_choice("10\n", 10), Some(10));
    assert_eq!(parse_menu_choice("8", 7), None);
    assert_eq!(parse_menu_choice("01", 7), None);
    assert_eq!(parse_menu_choice("", 7), None);
    assert_eq!(parse_menu_choice("uno", 7), None);
    for k in 0..=10u8 {
        assert_eq!(parse_menu_choice(&format!("\t{}  ", k), 10), Some(k));
    }
}

#[test]
fn control_socket_framing() {
    assert_eq!(WPA_CTRL_SOCKET, "/var/run/wpa_supplicant");
    assert_eq!(ctrl_socket_path("wlan0"), "/var/run/wpa_supplicant/wlan0");
    assert_eq!(frame_command("PING"), "PING\n");
    assert_eq!(reply_text("PONG\n"), "PONG");
    assert_eq!(reply_text(&reply_text("  OK \r\n")), reply_text("  OK \r\n"));
}

#[test]
fn trimming() {
    assert_eq!(trim_text("  x y \t\n"), "x y");
    assert_eq!(trim_text("\u{3000}z\u{a0}"), "z");
    assert_eq!(trim_text(" \t "), "");
    let once = trim_text("\n a \n");
    assert_eq!(trim_text(&once), once);
}

#[test]
fn vigenere_shifted_prefixes() {
    assert_eq!(shifted_strings("abc"), vec!["abc", "ab", "a"]);
    assert!(shifted_strings("").is_empty());
}

#[test]
fn vigenere_rows_are_right_aligned() {
    assert_eq!(compare_vector("ab", 3), (1, vec![' ', 'a', 'b']));
    let msg = "chiave";
    let n = msg.chars().count();
    for (i, s) in shifted_strings(msg).iter().enumerate() {
        let (spaces, row) = compare_vector(s, n);
        assert_eq!(spaces, i);
        assert_eq!(row.len(), n);
        assert!(row[..i].iter().all(|c| *c == ' '));
        assert_eq!(row[i..].iter().collect::<String>(), msg.chars().take(n - i).collect::<String>());
    }
}

#[test]
fn network_records() {
    let d = dbus_impl::WifiNetwork { ssid: "A".to_string(), signal: -40, bssid: "b".to_string(), frequency: 2412 };
    assert_eq!(d.clone().frequency, 2412);
    let s = socket_impl::WifiNetwork {
        ssid: "A".to_string(),
        signal: "-40".to_string(),
        bssid: "b".to_string(),
        frequency: "2412".to_string(),
        flags: "[ESS]".to_string(),
    };
    assert_eq!(s.clone().flags, "[ESS]");
}

#[test]
fn vigenere_spaces_count_bytes() {
    assert_eq!(compare_vector("é", 3), (1, vec![' ', 'é']));
    assert_eq!(compare_vector("", 2), (2, vec![' ', ' ']));
}
