pub mod text;
pub mod wpa_supplicant;
pub mod network_manager;
pub mod menu;
pub mod socket_impl;
pub mod dbus_impl;
pub mod vigenere;
