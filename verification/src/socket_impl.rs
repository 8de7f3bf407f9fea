//! The logic of the `wpa_supplicant` control-socket client: where the
//! socket lives, how a command is framed and how a reply is read.

use vstd::prelude::*;
use crate::text::{trim, trim_is_idempotent, trim_text};

verus! {

/// The directory that holds the control sockets, one per interface.
pub const WPA_CTRL_SOCKET: &'static str = "/var/run/wpa_supplicant";

/// A network as the control socket reports it.
#[derive(Debug, Clone)]
pub struct WifiNetwork {
    pub ssid: String,
    pub signal: String,
    pub bssid: String,
    pub frequency: String,
    pub flags: String,
}

/// The path of the control socket of `interface`.
pub fn ctrl_socket_path(interface: &str) -> (path: String)
    ensures
        path@ == WPA_CTRL_SOCKET@ + "/"@ + interface@,
{
    let mut path = String::from_str(WPA_CTRL_SOCKET);
    path.append("/");
    path.append(interface);
    path
}

/// A command as it is written to the socket: followed by a newline.
pub fn frame_command(command: &str) -> (framed: String)
    ensures
        framed@ == command@ + "\n"@,
{
    let mut framed = String::from_str(command);
    framed.append("\n");
    framed
}

/// The reply carried by a line read from the socket: the line trimmed.
pub fn reply_text(line: &str) -> (reply: String)
    ensures
        reply@ == trim(line@),
{
    trim_text(line)
}

/// A reply read back is already clean: reading it again changes nothing.
pub proof fn reply_text_is_stable(line: Seq<char>)
    ensures
        trim(trim(line)) == trim(line),
{
    trim_is_idempotent(line);
}

} // verus!
