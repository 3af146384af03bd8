//! What the HTTP side and the network state machine tell each other.

use vstd::prelude::*;

use crate::text::Text;
#[allow(unused_imports)]
use crate::wifi::SSID_MAX;

verus! {

/// Maximum length of a Wi-Fi passphrase, in bytes.
pub const PASSWORD_MAX: usize = 63;

/// Current high-level phase of the device, surfaced to the web page.
#[derive(Clone, Copy, Debug, PartialEq, Eq, Structural)]
pub enum Status {
    /// Access point up, portal serving, waiting for the user to pick a network.
    Portal,
    /// A scan is in progress.
    Scanning,
    /// Switching to the chosen network.
    Connecting,
    /// Joined the upstream network and confirmed that the internet is reachable.
    Connected,
    /// The join attempt failed; back to the portal so that the user can retry.
    Failed,
}

impl Status {
    /// The token that stands for this status in the `/status` JSON.
    pub open spec fn token(self) -> Seq<char> {
        match self {
            Status::Portal => "portal"@,
            Status::Scanning => "scanning"@,
            Status::Connecting => "connecting"@,
            Status::Connected => "connected"@,
            Status::Failed => "failed"@,
        }
    }

    /// Short machine-readable token used by the `/status` JSON.
    pub fn as_str(self) -> (token: &'static str)
        ensures
            token@ == self.token(),
    {
        match self {
            Status::Portal => "portal",
            Status::Scanning => "scanning",
            Status::Connecting => "connecting",
            Status::Connected => "connected",
            Status::Failed => "failed",
        }
    }
}

/// A pending connect request from the web form.
pub struct ConnectRequest {
    pub ssid: Text,
    pub password: Text,
}

impl ConnectRequest {
    /// Whether both texts have the room that the radio takes, and no more.
    pub open spec fn well_formed(&self) -> bool {
        self.ssid.capacity() == SSID_MAX && self.password.capacity() == PASSWORD_MAX
    }
}

} // verus!
