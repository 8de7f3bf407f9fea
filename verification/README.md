# wifi_connector

A terminal WiFi connector for Linux with four front ends (NetworkManager's
`nmcli`, `wpa_supplicant` driven through `iw` and DHCP clients, the
`wpa_supplicant` control socket, and a D-Bus walkthrough), plus a small
Vigenère alignment tool.

- `src/` is the verified library (Verus): the parsers for the text that
  `iw` and `nmcli` print, the `wpa_supplicant` configuration and how it is
  shown with the password hidden, the command lines, the DHCP fallback
  decisions, menu input and control-socket framing. `src/text.rs` holds the
  character-level primitives (trim, lines, split, words, replace) with
  exact specifications on which the rest is stated.
- `app/` runs the programs: menus, commands, sockets, files and printing.
  `wifi-connector [nmcli|wpa-supplicant|socket|dbus|vigenere]` picks one.
- `tests/` checks the library on concrete inputs.
