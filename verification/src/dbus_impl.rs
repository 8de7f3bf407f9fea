//! The data of the D-Bus front end.

use vstd::prelude::*;

verus! {

/// A network as the D-Bus interface of `wpa_supplicant` describes it.
#[derive(Debug, Clone)]
pub struct WifiNetwork {
    pub ssid: String,
    pub signal: i32,
    pub bssid: String,
    pub frequency: u32,
}

} // verus!
