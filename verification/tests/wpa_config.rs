use wifi_connector::wpa_supplicant::{
    dhcp_next, masked_config, wpa_config_text, wpa_supplicant_args, ClientOutcome, DhcpClient,
    DhcpStep, WPA_SUPPLICANT_CONF,
};

#[test]
fn config_for_protected_network() {
    assert_eq!(
        wpa_config_text("Home", "secret"),
        "ctrl_interface=/var/run/wpa_supplicant\nnetwork={\nssid=\"Home\"\npsk=\"secret\"\n}\n"
    );
}

#[test]
fn config_for_open_network() {
    assert_eq!(
        wpa_config_text("Cafe", ""),
        "ctrl_interface=/var/run/wpa_supplicant\nnetwork={\nssid=\"Cafe\"\nkey_mgmt=NONE\n}\n"
    );
}

#[test]
fn shown_config_hides_password() {
    let config = wpa_config_text("Home", "secret");
    let shown = masked_config(&config, "secret");
    assert_eq!(
        shown,
        "ctrl_interface=/var/run/wpa_supplicant\nnetwork={\nssid=\"Home\"\npsk=\"********\"\n}\n"
    );
    assert!(!shown.contains("secret"));
}

#[test]
fn shown_config_replaces_every_occurrence() {
    let config = wpa_config_text("pass", "pass");
    let shown = masked_config(&config, "pass");
    assert_eq!(shown, config.replace("pass", "********"));
    assert_eq!(masked_config("aaaa", "aa"), "****************");
    assert_eq!(masked_config("aaa", "aa"), "********a");
}

#[test]
fn shown_open_config_is_unchanged() {
    let config = wpa_config_text("Cafe", "");
    assert_eq!(masked_config(&config, ""), config);
}

#[test]
fn supplicant_arguments() {
    assert_eq!(
        wpa_supplicant_args("wlan0"),
        vec!["-B", "-i", "wlan0", "-c", WPA_SUPPLICANT_CONF]
    );
    assert_eq!(WPA_SUPPLICANT_CONF, "/tmp/wpa_supplicant_demo.conf");
}

#[test]
fn dhcp_starts_with_dhclient() {
    assert_eq!(dhcp_next(None, None), DhcpStep::Run(DhcpClient::Dhclient));
    assert_eq!(dhcp_next(Some(ClientOutcome::Succeeded), None), DhcpStep::Configured(DhcpClient::Dhclient));
}

#[test]
fn dhcp_falls_back_to_dhcpcd() {
    assert_eq!(dhcp_next(Some(ClientOutcome::Failed), None), DhcpStep::Run(DhcpClient::Dhcpcd));
    assert_eq!(dhcp_next(Some(ClientOutcome::Missing), None), DhcpStep::Run(DhcpClient::Dhcpcd));
    assert_eq!(
        dhcp_next(Some(ClientOutcome::Failed), Some(ClientOutcome::Succeeded)),
        DhcpStep::Configured(DhcpClient::Dhcpcd)
    );
}

#[test]
fn dhcp_reports_when_both_fail() {
    assert_eq!(dhcp_next(Some(ClientOutcome::Missing), Some(ClientOutcome::Failed)), DhcpStep::DhcpcdFailed);
    assert_eq!(
        dhcp_next(Some(ClientOutcome::Failed), Some(ClientOutcome::Missing)),
        DhcpStep::NoClient { dhclient_missing: false }
    );
    assert_eq!(
        dhcp_next(Some(ClientOutcome::Missing), Some(ClientOutcome::Missing)),
        DhcpStep::NoClient { dhclient_missing: true }
    );
}
